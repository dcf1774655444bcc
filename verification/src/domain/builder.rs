//! Graph builder: turns semantic data into a context graph.
use crate::domain::edge::EdgeKind;
use crate::domain::graph::ContextGraph;
use crate::domain::node::{
    opt_seq, parameter_models, DocScore, FunctionNode, Mutability as NodeMutability, Node, NodeCore, NodeModel,
    Parameter, SourceSpan, VariableKind as NodeVariableKind, VariableNode,
    Visibility as NodeVisibility,
};
use crate::domain::policy::{
    opt_str_view, strings_view, DocumentationScorer, NodeInfo, NodeInfoModel, NodeType,
    SizeFunction,
};
use crate::domain::semantic::{
    all_definitions, collect_all_definitions, is_node_kind, is_type_kind, resolved,
    should_skip_kind, spec_is_node_kind, spec_is_type_kind,
    spec_should_skip_kind, DocumentSemantics, Mutability, ReferenceRole, SemanticData,
    SourceSpan as SemanticSpan, SymbolDefinition, SymbolDetails, SymbolKind, SymbolReference,
    VariableKind as SemanticVarKind, Visibility,
};
use crate::domain::type_registry::{TypeDefAttribute, TypeInfo, TypeKind};
use crate::text::{
    byte_len, byte_len_u32, contains, has_substring, lines, lines_spec, lowercase, rfind_char,
    rfind_char_spec, str_chars, str_equals, str_to_lowercase, string_from_chars,
};
use vstd::prelude::*;

verus! {

// -----------------------------------------------------------------------------
// Conversions
// -----------------------------------------------------------------------------

pub open spec fn spec_convert_span(span: SemanticSpan) -> SourceSpan {
    SourceSpan {
        start_line: span.start_line,
        start_column: span.start_column,
        end_line: span.end_line,
        end_column: span.end_column,
    }
}

/// Convert semantic span to node SourceSpan
fn convert_span(span: &SemanticSpan) -> (r: SourceSpan)
    ensures
        r == spec_convert_span(*span),
{
    SourceSpan {
        start_line: span.start_line,
        start_column: span.start_column,
        end_line: span.end_line,
        end_column: span.end_column,
    }
}

/// Convert semantic span for the size function (same 0-based coordinates)
fn convert_span_for_size(span: &SemanticSpan) -> (r: SourceSpan)
    ensures
        r == spec_convert_span(*span),
{
    SourceSpan {
        start_line: span.start_line,
        start_column: span.start_column,
        end_line: span.end_line,
        end_column: span.end_column,
    }
}

pub open spec fn spec_node_type_of(kind: SymbolKind) -> NodeType {
    match kind {
        SymbolKind::Function | SymbolKind::Method | SymbolKind::Constructor => NodeType::Function,
        _ => NodeType::Variable,
    }
}

/// Infer node type from symbol kind
fn infer_node_type_from_kind(kind: &SymbolKind) -> (r: NodeType)
    ensures
        r == spec_node_type_of(*kind),
{
    match kind {
        SymbolKind::Function | SymbolKind::Method | SymbolKind::Constructor => NodeType::Function,
        _ => NodeType::Variable,
    }
}

pub open spec fn spec_convert_visibility(vis: Visibility) -> NodeVisibility {
    match vis {
        Visibility::Public => NodeVisibility::Public,
        Visibility::Private => NodeVisibility::Private,
        Visibility::Protected => NodeVisibility::Protected,
        Visibility::Internal => NodeVisibility::Internal,
        Visibility::Unspecified => NodeVisibility::Public,
    }
}

/// Convert semantic visibility to node visibility (unspecified counts as public)
pub fn convert_visibility(vis: &Visibility) -> (r: NodeVisibility)
    ensures
        r == spec_convert_visibility(*vis),
{
    match vis {
        Visibility::Public => NodeVisibility::Public,
        Visibility::Private => NodeVisibility::Private,
        Visibility::Protected => NodeVisibility::Protected,
        Visibility::Internal => NodeVisibility::Internal,
        Visibility::Unspecified => NodeVisibility::Public,
    }
}

pub open spec fn spec_convert_mutability(m: Mutability) -> NodeMutability {
    match m {
        Mutability::Const => NodeMutability::Const,
        Mutability::Immutable => NodeMutability::Immutable,
        Mutability::Mutable => NodeMutability::Mutable,
    }
}

/// Convert semantic mutability to node mutability
fn convert_mutability(mutability: &Mutability) -> (r: NodeMutability)
    ensures
        r == spec_convert_mutability(*mutability),
{
    match mutability {
        Mutability::Const => NodeMutability::Const,
        Mutability::Immutable => NodeMutability::Immutable,
        Mutability::Mutable => NodeMutability::Mutable,
    }
}

pub open spec fn spec_convert_var_kind(k: SemanticVarKind) -> NodeVariableKind {
    match k {
        SemanticVarKind::Global => NodeVariableKind::Global,
        SemanticVarKind::ClassField => NodeVariableKind::ClassField,
        SemanticVarKind::Local => NodeVariableKind::Local,
    }
}

// -----------------------------------------------------------------------------
// Signature text for documentation scoring
// -----------------------------------------------------------------------------

/// The `Debug` rendering of a list of strings (`format!("{:?}", v)`, e.g. `["a", "b"]`).
pub uninterp spec fn debug_string_list(v: Seq<Seq<char>>) -> Seq<char>;

/// `<Vec<String> as Debug>::fmt`: the list in brackets, each string quoted and escaped.
#[verifier::external_body]
fn debug_format_strings(v: &Vec<String>) -> (r: String)
    ensures
        r@ == debug_string_list(strings_view(v@)),
{
    format!("{:?}", v)
}

/// One parameter as `name: type`, or just `name` when untyped.
pub open spec fn param_text(name: Seq<char>, param_type: Option<Seq<char>>) -> Seq<char> {
    match param_type {
        Some(t) => name + seq![':', ' '] + t,
        None => name,
    }
}

/// The parameter texts joined by `, `.
pub open spec fn params_text(ps: Seq<crate::domain::semantic::ParameterInfo>) -> Seq<char>
    decreases ps.len(),
{
    if ps.len() == 0 {
        Seq::empty()
    } else if ps.len() == 1 {
        param_text(ps[0].name@, opt_seq(ps[0].param_type))
    } else {
        params_text(ps.drop_last()) + seq![',', ' '] + param_text(
            ps.last().name@,
            opt_seq(ps.last().param_type),
        )
    }
}

/// The signature text of a function definition: `(params) -> [return types]`.
pub open spec fn spec_signature(def: SymbolDefinition) -> Option<Seq<char>> {
    match def.details {
        SymbolDetails::Function(f) => Some(
            seq!['('] + params_text(f.parameters@) + seq![')', ' ', '-', '>', ' '] + debug_string_list(
                strings_view(f.return_types@),
            ),
        ),
        _ => None,
    }
}

fn push_str_chars(out: &mut Vec<char>, s: &str)
    ensures
        final(out)@ == old(out)@ + s@,
{
    let cs = str_chars(s);
    let mut i: usize = 0;
    let ghost start = out@;
    while i < cs.len()
        invariant
            i <= cs@.len(),
            out@ == start + cs@.take(i as int),
        decreases cs@.len() - i,
    {
        out.push(cs[i]);
        assert(start + cs@.take(i as int + 1) =~= (start + cs@.take(i as int)).push(cs@[i as int]));
        i = i + 1;
    }
    assert(cs@.take(i as int) =~= cs@);
}

/// Extract signature text for documentation scoring
fn extract_signature(def: &SymbolDefinition) -> (r: Option<String>)
    ensures
        opt_seq(r) == spec_signature(*def),
{
    match &def.details {
        SymbolDetails::Function(func) => {
            let mut out: Vec<char> = Vec::new();
            out.push('(');
            let mut i: usize = 0;
            while i < func.parameters.len()
                invariant
                    i <= func.parameters@.len(),
                    out@ == seq!['('] + params_text(func.parameters@.take(i as int)),
                decreases func.parameters@.len() - i,
            {
                let p = &func.parameters[i];
                proof {
                    let t = func.parameters@.take(i as int + 1);
                    assert(t.drop_last() =~= func.parameters@.take(i as int));
                    assert(t.last() == *p);
                    if i == 0 {
                        assert(func.parameters@.take(0) =~= Seq::<crate::domain::semantic::ParameterInfo>::empty());
                        assert(t.len() == 1);
                        assert(t[0] == *p);
                    }
                }
                let ghost before = out@;
                if i > 0 {
                    out.push(',');
                    out.push(' ');
                }
                push_str_chars(&mut out, p.name.as_str());
                match &p.param_type {
                    Some(t) => {
                        out.push(':');
                        out.push(' ');
                        push_str_chars(&mut out, t.as_str());
                    },
                    None => {},
                }
                proof {
                    let piece = param_text(p.name@, opt_seq(p.param_type));
                    if i > 0 {
                        assert(out@ =~= before + seq![',', ' '] + piece);
                    } else {
                        assert(out@ =~= before + piece);
                    }
                    assert(out@ =~= seq!['('] + params_text(func.parameters@.take(i as int + 1)));
                }
                i = i + 1;
            }
            assert(func.parameters@.take(i as int) =~= func.parameters@);
            push_str_chars(&mut out, ") -> ");
            proof {
                reveal_strlit(") -> ");
            }
            let dbg = debug_format_strings(&func.return_types);
            push_str_chars(&mut out, dbg.as_str());
            proof {
                assert(out@ =~= seq!['('] + params_text(func.parameters@) + seq![
                    ')',
                    ' ',
                    '-',
                    '>',
                    ' ',
                ] + debug_string_list(strings_view(func.return_types@)));
            }
            Some(string_from_chars(out.as_slice()))
        },
        _ => None,
    }
}

// -----------------------------------------------------------------------------
// Nodes and types from definitions
// -----------------------------------------------------------------------------

pub open spec fn param_models(ps: Seq<crate::domain::semantic::ParameterInfo>) -> Seq<
    (Seq<char>, Option<Seq<char>>),
> {
    ps.map_values(|p: crate::domain::semantic::ParameterInfo| (p.name@, opt_seq(p.param_type)))
}

/// The node built from a definition with the given core.
pub open spec fn spec_node_model(core: NodeCore, def: SymbolDefinition, is_interface_method: bool) -> NodeModel {
    match def.details {
        SymbolDetails::Function(f) => NodeModel::Function {
            core,
            is_async: f.modifiers.is_async,
            is_generator: f.modifiers.is_generator,
            visibility: spec_convert_visibility(f.modifiers.visibility),
            parameters: param_models(f.parameters@),
            return_types: strings_view(f.return_types@),
            is_interface_method,
            is_constructor: f.modifiers.is_constructor,
            is_di_wired: false,
        },
        SymbolDetails::Variable(v) => NodeModel::Variable {
            core,
            var_type: opt_seq(v.var_type),
            mutability: spec_convert_mutability(v.mutability),
            variable_kind: spec_convert_var_kind(v.variable_kind),
        },
        _ => NodeModel::Variable {
            core,
            var_type: None,
            mutability: NodeMutability::Mutable,
            variable_kind: NodeVariableKind::Global,
        },
    }
}

fn clone_opt_string(o: &Option<String>) -> (r: Option<String>)
    ensures
        r == *o,
{
    match o {
        Some(s) => Some(s.clone()),
        None => None,
    }
}

fn clone_strings(v: &Vec<String>) -> (r: Vec<String>)
    ensures
        r@ == v@,
{
    let mut r: Vec<String> = Vec::new();
    let mut i: usize = 0;
    while i < v.len()
        invariant
            i <= v@.len(),
            r@ == v@.take(i as int),
        decreases v@.len() - i,
    {
        r.push(v[i].clone());
        assert(r@ =~= v@.take(i as int + 1));
        i = i + 1;
    }
    assert(v@.take(i as int) =~= v@);
    r
}

/// Create a graph node from symbol definition: functions and variables from their details,
/// anything else as a mutable global variable.
fn create_node_from_definition(core: NodeCore, def: &SymbolDefinition, is_interface_method: bool) -> (r: Node)
    ensures
        r.model() == spec_node_model(core, *def, is_interface_method),
{
    match &def.details {
        SymbolDetails::Function(func_details) => {
            let mut parameters: Vec<Parameter> = Vec::new();
            let mut i: usize = 0;
            while i < func_details.parameters.len()
                invariant
                    i <= func_details.parameters@.len(),
                    parameter_models(parameters@) == param_models(func_details.parameters@.take(i as int)),
                decreases func_details.parameters@.len() - i,
            {
                let p = &func_details.parameters[i];
                let np = Parameter { name: p.name.clone(), param_type: clone_opt_string(&p.param_type) };
                let ghost before = parameters@;
                parameters.push(np);
                proof {
                    let t = func_details.parameters@.take(i as int + 1);
                    assert(t[i as int] == *p);
                    assert(crate::domain::node::parameter_model(np) == (p.name@, opt_seq(p.param_type)));
                    let a = parameter_models(parameters@);
                    let b = param_models(t);
                    let a0 = parameter_models(before);
                    let b0 = param_models(func_details.parameters@.take(i as int));
                    assert(parameters@ == before.push(np));
                    assert(a0.len() == b0.len());
                    assert(a.len() == b.len());
                    assert forall|k: int| 0 <= k < a.len() implies a[k] == b[k] by {
                        if k < i {
                            assert(parameters@[k] == before[k]);
                            assert(a[k] == a0[k]);
                            assert(b[k] == b0[k]);
                        } else {
                            assert(parameters@[k] == np);
                        }
                    }
                    assert(a =~= b);
                }
                i = i + 1;
            }
            assert(func_details.parameters@.take(i as int) =~= func_details.parameters@);
            let return_types = clone_strings(&func_details.return_types);
            let f = FunctionNode {
                core,
                is_async: func_details.modifiers.is_async,
                is_generator: func_details.modifiers.is_generator,
                visibility: convert_visibility(&func_details.modifiers.visibility),
                parameters,
                return_types,
                is_interface_method,
                is_constructor: func_details.modifiers.is_constructor,
                is_di_wired: false,
            };
            assert(f.return_types@.map_values(|t: String| t@) =~= strings_view(func_details.return_types@));
            Node::Function(f)
        },
        SymbolDetails::Variable(var_details) => {
            let variable_kind = match var_details.variable_kind {
                SemanticVarKind::Global => NodeVariableKind::Global,
                SemanticVarKind::ClassField => NodeVariableKind::ClassField,
                SemanticVarKind::Local => NodeVariableKind::Local,
            };
            Node::Variable(
                VariableNode {
                    core,
                    var_type: clone_opt_string(&var_details.var_type),
                    mutability: convert_mutability(&var_details.mutability),
                    variable_kind,
                },
            )
        },
        _ => {
            Node::Variable(
                VariableNode {
                    core,
                    var_type: None,
                    mutability: NodeMutability::Mutable,
                    variable_kind: NodeVariableKind::Global,
                },
            )
        },
    }
}

/// The type information registered for a type definition.
pub open spec fn spec_type_info(def: SymbolDefinition, context_size: u32, doc_score: DocScore) -> TypeInfo {
    let (type_kind, is_abstract, type_param_count) = match def.details {
        SymbolDetails::Type(t) => (
            match t.kind {
                crate::domain::semantic::TypeKind::Interface => TypeKind::Interface,
                crate::domain::semantic::TypeKind::Struct => TypeKind::Struct,
                crate::domain::semantic::TypeKind::Enum => TypeKind::Enum,
                crate::domain::semantic::TypeKind::TypeAlias => TypeKind::TypeAlias,
                _ => TypeKind::Class,
            },
            t.is_abstract,
            t.type_params@.len() as u32,
        ),
        _ => match def.kind {
            SymbolKind::Interface | SymbolKind::Trait | SymbolKind::Protocol => (
                TypeKind::Interface,
                true,
                0u32,
            ),
            SymbolKind::Struct => (TypeKind::Struct, false, 0u32),
            SymbolKind::Enum => (TypeKind::Enum, false, 0u32),
            SymbolKind::TypeAlias => (TypeKind::TypeAlias, false, 0u32),
            _ => (TypeKind::Class, false, 0u32),
        },
    };
    TypeInfo {
        definition: TypeDefAttribute { type_kind, is_abstract, type_param_count },
        context_size,
        doc_score,
    }
}

/// Create TypeInfo for registering in TypeRegistry: from the type details when present,
/// otherwise inferred from the symbol kind.
pub fn create_type_info(def: &SymbolDefinition, context_size: u32, doc_score: DocScore) -> (r: TypeInfo)
    ensures
        r == spec_type_info(*def, context_size, doc_score),
{
    let mut type_kind = TypeKind::Class;
    let mut is_abstract = false;
    let mut type_param_count: u32 = 0;
    match &def.details {
        SymbolDetails::Type(type_details) => {
            type_kind =
            match type_details.kind {
                crate::domain::semantic::TypeKind::Class => TypeKind::Class,
                crate::domain::semantic::TypeKind::Interface => TypeKind::Interface,
                crate::domain::semantic::TypeKind::Struct => TypeKind::Struct,
                crate::domain::semantic::TypeKind::Enum => TypeKind::Enum,
                crate::domain::semantic::TypeKind::TypeAlias => TypeKind::TypeAlias,
                _ => TypeKind::Class,
            };
            is_abstract = type_details.is_abstract;
            type_param_count = type_details.type_params.len() as u32;
        },
        _ => {
            match def.kind {
                SymbolKind::Interface | SymbolKind::Trait | SymbolKind::Protocol => {
                    type_kind = TypeKind::Interface;
                    is_abstract = true;
                },
                SymbolKind::Struct => type_kind = TypeKind::Struct,
                SymbolKind::Enum => type_kind = TypeKind::Enum,
                SymbolKind::TypeAlias => type_kind = TypeKind::TypeAlias,
                _ => {},
            }
        },
    }
    TypeInfo {
        definition: TypeDefAttribute { type_kind, is_abstract, type_param_count },
        context_size,
        doc_score,
    }
}

/// Index of the first definition of `parent` that carries type details.
pub open spec fn first_type_def(defs: Seq<SymbolDefinition>, parent: Seq<char>) -> Option<int>
    decreases defs.len(),
{
    if defs.len() == 0 {
        None
    } else {
        match first_type_def(defs.drop_last(), parent) {
            Some(i) => Some(i),
            None => if defs.last().symbol_id@ == parent && defs.last().details is Type {
                Some(defs.len() - 1)
            } else {
                None
            },
        }
    }
}

/// The enclosing symbol names a type definition (searched in the documents, then among the
/// external symbols; the first one with type details decides) that is abstract.
pub open spec fn spec_enclosed_by_abstract(enclosing: Option<String>, defs: Seq<SymbolDefinition>) -> bool {
    match enclosing {
        None => false,
        Some(p) => match first_type_def(defs, p@) {
            Some(i) => defs[i].details->Type_0.is_abstract,
            None => false,
        },
    }
}

/// Check if a symbol is enclosed by an abstract type (Interface/Protocol/Trait/Abstract Class)
pub fn is_enclosed_by_abstract_type(
    enclosing_symbol: &Option<String>,
    semantic_data: &crate::domain::semantic::SemanticData,
) -> (r: bool)
    ensures
        r == spec_enclosed_by_abstract(*enclosing_symbol, all_definitions(*semantic_data)),
{
    let parent_id = match enclosing_symbol {
        Some(p) => p,
        None => {
            return false;
        },
    };
    let defs = collect_all_definitions(semantic_data);
    let ghost all = all_definitions(*semantic_data);
    let mut i: usize = 0;
    while i < defs.len()
        invariant
            i <= defs@.len(),
            defs@.len() == all.len(),
            forall|k: int| 0 <= k < defs@.len() ==> *(#[trigger] defs@[k]) == all[k],
            first_type_def(all.take(i as int), parent_id@) is None,
            *enclosing_symbol == Some(*parent_id),
            all == all_definitions(*semantic_data),
        decreases defs@.len() - i,
    {
        let def = defs[i];
        proof {
            assert(all.take(i as int + 1).drop_last() =~= all.take(i as int));
            assert(all.take(i as int + 1).last() == all[i as int]);
        }
        if def.symbol_id == *parent_id {
            match &def.details {
                SymbolDetails::Type(type_details) => {
                    proof {
                        assert(def.symbol_id@ == parent_id@);
                        assert(all.take(i as int + 1).last() == *def);
                        assert(first_type_def(all.take(i as int + 1), parent_id@) == Some(i as int));
                        lemma_first_type_def_prefix(all, parent_id@, i as int + 1);
                        assert(all[i as int] == *def);
                    }
                    return type_details.is_abstract;
                },
                _ => {},
            }
        }
        i = i + 1;
    }
    assert(all.take(i as int) =~= all);
    false
}

/// A first match within a prefix is the first match of the whole.
proof fn lemma_first_type_def_prefix(defs: Seq<SymbolDefinition>, parent: Seq<char>, n: int)
    requires
        0 <= n <= defs.len(),
        first_type_def(defs.take(n), parent) is Some,
    ensures
        first_type_def(defs, parent) == first_type_def(defs.take(n), parent),
    decreases defs.len() - n,
{
    if n < defs.len() {
        assert(defs.take(n + 1).drop_last() =~= defs.take(n));
        lemma_first_type_def_prefix(defs, parent, n + 1);
    } else {
        assert(defs.take(n) =~= defs);
    }
}

// -----------------------------------------------------------------------------
// Signature span of interface methods
// -----------------------------------------------------------------------------

/// The line holds a colon or a semicolon (a signature end in Python/TypeScript).
pub open spec fn ends_signature(line: Seq<char>) -> bool {
    has_substring(line, seq![':']) || has_substring(line, seq![';'])
}

/// First line at or after `i` that ends a signature.
pub open spec fn first_signature_line(ls: Seq<Seq<char>>, i: int) -> Option<int>
    decreases ls.len() - i,
{
    if i < 0 || i >= ls.len() {
        None
    } else if ends_signature(ls[i]) {
        Some(i)
    } else {
        first_signature_line(ls, i + 1)
    }
}

/// The span of a method's signature: from the start of `span` to the end of the first line
/// (from its start line on) holding a colon or semicolon; `span` itself when there is none.
pub open spec fn spec_signature_span(span: SemanticSpan, source: Seq<char>) -> SourceSpan {
    let ls = lines_spec(source);
    if span.start_line >= ls.len() {
        spec_convert_span(span)
    } else {
        match first_signature_line(ls, span.start_line as int) {
            Some(i) => SourceSpan {
                start_line: span.start_line,
                start_column: span.start_column,
                end_line: i as u32,
                end_column: byte_len(ls[i]) as u32,
            },
            None => spec_convert_span(span),
        }
    }
}

/// Extract only the signature portion of a method span (first line to colon/semicolon).
/// For interface methods only the signature counts, not any implementation body.
pub fn extract_signature_span(span: &SemanticSpan, source_code: &str) -> (r: SourceSpan)
    ensures
        r == spec_signature_span(*span, source_code@),
{
    let chars = str_chars(source_code);
    let ls = lines(chars.as_slice());
    let ghost lsv = lines_spec(source_code@);
    assert(crate::text::deep_chars(ls@) == lsv);
    assert(ls@.len() == lsv.len());
    let start_line = span.start_line as usize;
    if start_line >= ls.len() {
        return convert_span(span);
    }
    let colon = [':'];
    let semicolon = [';'];
    assert(colon@ =~= seq![':']);
    assert(semicolon@ =~= seq![';']);
    let mut i: usize = start_line;
    while i < ls.len()
        invariant
            start_line <= i <= ls@.len(),
            ls@.len() == lsv.len(),
            crate::text::deep_chars(ls@) == lsv,
            first_signature_line(lsv, start_line as int) == first_signature_line(lsv, i as int),
            colon@ == seq![':'],
            semicolon@ == seq![';'],
            start_line == span.start_line,
            lsv == lines_spec(source_code@),
        decreases ls@.len() - i,
    {
        let line = &ls[i];
        assert(line@ == lsv[i as int]);
        if contains(line.as_slice(), colon.as_slice()) || contains(line.as_slice(), semicolon.as_slice()) {
            proof {
                assert(ends_signature(lsv[i as int]));
                assert(first_signature_line(lsv, i as int) == Some(i as int));
                assert(first_signature_line(lsv, span.start_line as int) == Some(i as int));
                assert(!(span.start_line >= lsv.len()));
            }
            return SourceSpan {
                start_line: span.start_line,
                start_column: span.start_column,
                end_line: i as u32,
                end_column: byte_len_u32(line.as_slice()),
            };
        }
        i = i + 1;
    }
    convert_span(span)
}

// -----------------------------------------------------------------------------
// The build, pass by pass
// -----------------------------------------------------------------------------

/// The first documentation text of a definition.
pub open spec fn first_doc_text(def: SymbolDefinition) -> Option<Seq<char>> {
    if def.documentation@.len() > 0 {
        Some(def.documentation@[0]@)
    } else {
        None
    }
}

/// The text after the last `.` of a path (the whole path when it has none).
pub open spec fn extension_of(path: Seq<char>) -> Seq<char> {
    match rfind_char_spec(path, '.') {
        Some(i) => path.skip(i + 1),
        None => path,
    }
}

/// What the documentation scorer is told of a definition in a document.
pub open spec fn node_info_of(def: SymbolDefinition, doc: DocumentSemantics) -> NodeInfoModel {
    NodeInfoModel {
        node_type: spec_node_type_of(def.kind),
        name: def.name@,
        signature: spec_signature(def),
        language: Some(lowercase(extension_of(doc.relative_path@))),
    }
}

/// A method or constructor enclosed by an abstract type: only its signature counts.
pub open spec fn is_interface_method_of(def: SymbolDefinition, data: SemanticData) -> bool {
    (def.kind == SymbolKind::Method || def.kind == SymbolKind::Constructor)
        && spec_enclosed_by_abstract(def.enclosing_symbol, all_definitions(data))
}

/// The span whose size is taken for a definition.
pub open spec fn size_span(def: SymbolDefinition, source: Seq<char>, interface_method: bool) -> SourceSpan {
    if interface_method {
        spec_signature_span(def.span, source)
    } else {
        spec_convert_span(def.span)
    }
}

/// What the first pass has built: the nodes, the symbol of each node, the symbol map
/// (each symbol to its last node) and the registered types.
pub struct BuildState {
    pub nodes: Seq<NodeModel>,
    pub symbols: Seq<Seq<char>>,
    pub symbol_map: Map<Seq<char>, usize>,
    pub types: Map<Seq<char>, TypeInfo>,
}

pub open spec fn empty_build_state() -> BuildState {
    BuildState {
        nodes: Seq::empty(),
        symbols: Seq::empty(),
        symbol_map: Map::empty(),
        types: Map::empty(),
    }
}

/// Graph builder - domain service for constructing a ContextGraph
pub struct GraphBuilder<S, D> {
    size_function: S,
    doc_scorer: D,
}

impl<S: SizeFunction, D: DocumentationScorer> GraphBuilder<S, D> {
    pub closed spec fn size_fn(&self) -> S {
        self.size_function
    }

    pub closed spec fn scorer(&self) -> D {
        self.doc_scorer
    }

    pub fn new(size_function: S, doc_scorer: D) -> (r: Self)
        ensures
            r.size_fn() == size_function,
            r.scorer() == doc_scorer,
    {
        Self { size_function, doc_scorer }
    }

    /// Pass 1 on one definition: skipped kinds are left out; types are registered; nodes are
    /// added with their size and documentation score.
    pub open spec fn def_step(
        &self,
        data: SemanticData,
        doc: DocumentSemantics,
        source: Seq<char>,
        def: SymbolDefinition,
        st: BuildState,
    ) -> BuildState {
        if spec_should_skip_kind(def.kind) {
            st
        } else {
            let iface = is_interface_method_of(def, data);
            let size = self.size_fn().spec_compute(
                source,
                size_span(def, source, iface),
                strings_view(def.documentation@),
            );
            let score = self.scorer().spec_score(node_info_of(def, doc), first_doc_text(def));
            if spec_is_type_kind(def.kind) {
                BuildState { types: st.types.insert(def.symbol_id@, spec_type_info(def, size, score)), ..st }
            } else if spec_is_node_kind(def.kind) {
                let core = NodeCore {
                    id: st.nodes.len() as u32,
                    name: def.name,
                    scope: def.enclosing_symbol,
                    context_size: size,
                    span: spec_convert_span(def.span),
                    doc_score: score,
                    is_external: def.is_external,
                    file_path: doc.relative_path,
                };
                BuildState {
                    nodes: st.nodes.push(spec_node_model(core, def, iface)),
                    symbols: st.symbols.push(def.symbol_id@),
                    symbol_map: st.symbol_map.insert(def.symbol_id@, st.nodes.len() as usize),
                    types: st.types,
                }
            } else {
                st
            }
        }
    }

    /// Pass 1 over the first `j` definitions of document `d`, from `st`.
    pub open spec fn defs_step(
        &self,
        data: SemanticData,
        sources: Seq<String>,
        d: int,
        st: BuildState,
        j: int,
    ) -> BuildState
        decreases j,
    {
        if j <= 0 {
            st
        } else {
            self.def_step(
                data,
                data.documents@[d],
                sources[d]@,
                data.documents@[d].definitions@[j - 1],
                self.defs_step(data, sources, d, st, j - 1),
            )
        }
    }

    /// Pass 1 over the first `d` documents.
    pub open spec fn pass1(&self, data: SemanticData, sources: Seq<String>, d: int) -> BuildState
        decreases d,
    {
        if d <= 0 {
            empty_build_state()
        } else {
            self.defs_step(
                data,
                sources,
                d - 1,
                self.pass1(data, sources, d - 1),
                data.documents@[d - 1].definitions@.len() as int,
            )
        }
    }
}

/// The constructors of registered types: each type symbol maps to the symbol of a node
/// defined as a function named `__init__` inside it (the last such definition wins).
pub open spec fn init_map_of(
    defs: Seq<SymbolDefinition>,
    types: Map<Seq<char>, TypeInfo>,
    nodes: Set<Seq<char>>,
) -> Map<Seq<char>, Seq<char>>
    decreases defs.len(),
{
    if defs.len() == 0 {
        Map::empty()
    } else {
        let m = init_map_of(defs.drop_last(), types, nodes);
        let d = defs.last();
        if d.kind == SymbolKind::Function && d.name@ == "__init__"@ && d.enclosing_symbol is Some
            && types.contains_key(d.enclosing_symbol->0@) && nodes.contains(d.symbol_id@) {
            m.insert(d.enclosing_symbol->0@, d.symbol_id@)
        } else {
            m
        }
    }
}

/// The node a reference points at: the node its target resolves to, or, for a call whose
/// target resolves to no node, the node of the target's constructor.
pub open spec fn ref_target(
    symbol_map: Map<Seq<char>, usize>,
    encl: Map<Seq<char>, Seq<char>>,
    init: Map<Seq<char>, Seq<char>>,
    r: SymbolReference,
) -> Option<usize> {
    let tgt = resolved(symbol_map.dom(), encl, r.target_symbol@);
    if tgt is Some && symbol_map.contains_key(tgt->0) {
        Some(symbol_map[tgt->0])
    } else if r.role == ReferenceRole::Call && init.contains_key(r.target_symbol@)
        && symbol_map.contains_key(init[r.target_symbol@]) {
        Some(symbol_map[init[r.target_symbol@]])
    } else {
        None
    }
}

/// The edge pass 2 adds for a reference: from the node enclosing the reference to the node
/// it points at (`ref_target`), for calls, reads and writes between distinct nodes.
pub open spec fn ref_edge(
    symbol_map: Map<Seq<char>, usize>,
    encl: Map<Seq<char>, Seq<char>>,
    init: Map<Seq<char>, Seq<char>>,
    r: SymbolReference,
) -> Option<(usize, usize, EdgeKind)> {
    let src = resolved(symbol_map.dom(), encl, r.enclosing_symbol@);
    let tgt = ref_target(symbol_map, encl, init, r);
    if src is Some && symbol_map.contains_key(src->0) && tgt is Some && symbol_map[src->0] != tgt->0 {
        let a = symbol_map[src->0];
        let b = tgt->0;
        match r.role {
            ReferenceRole::Call => Some((a, b, EdgeKind::Call)),
            ReferenceRole::Read => Some((a, b, EdgeKind::Read)),
            ReferenceRole::Write => Some((a, b, EdgeKind::Write)),
            _ => None,
        }
    } else {
        None
    }
}

/// Pass 2 on one reference: the edge it adds (see `ref_edge`).
pub open spec fn ref_step(
    symbol_map: Map<Seq<char>, usize>,
    encl: Map<Seq<char>, Seq<char>>,
    init: Map<Seq<char>, Seq<char>>,
    r: SymbolReference,
    edges: Seq<(usize, usize, EdgeKind)>,
) -> Seq<(usize, usize, EdgeKind)> {
    match ref_edge(symbol_map, encl, init, r) {
        Some(e) => edges.push(e),
        None => edges,
    }
}

/// Pass 2 over the first `j` references of `doc`, from `edges`.
pub open spec fn refs_step(
    symbol_map: Map<Seq<char>, usize>,
    encl: Map<Seq<char>, Seq<char>>,
    init: Map<Seq<char>, Seq<char>>,
    doc: DocumentSemantics,
    edges: Seq<(usize, usize, EdgeKind)>,
    j: int,
) -> Seq<(usize, usize, EdgeKind)>
    decreases j,
{
    if j <= 0 {
        edges
    } else {
        ref_step(
            symbol_map,
            encl,
            init,
            doc.references@[j - 1],
            refs_step(symbol_map, encl, init, doc, edges, j - 1),
        )
    }
}

/// Pass 2 over the first `d` documents.
pub open spec fn pass2(
    symbol_map: Map<Seq<char>, usize>,
    encl: Map<Seq<char>, Seq<char>>,
    init: Map<Seq<char>, Seq<char>>,
    docs: Seq<DocumentSemantics>,
    d: int,
) -> Seq<(usize, usize, EdgeKind)>
    decreases d,
{
    if d <= 0 {
        Seq::empty()
    } else {
        refs_step(
            symbol_map,
            encl,
            init,
            docs[d - 1],
            pass2(symbol_map, encl, init, docs, d - 1),
            docs[d - 1].references@.len() as int,
        )
    }
}


// -----------------------------------------------------------------------------
// Pass 3: dynamic expansion edges
// -----------------------------------------------------------------------------

/// What pass 2 records of each reference: the edge it added, if any, and the symbol the
/// reference names.
pub open spec fn records_of(
    symbol_map: Map<Seq<char>, usize>,
    encl: Map<Seq<char>, Seq<char>>,
    init: Map<Seq<char>, Seq<char>>,
    refs: Seq<SymbolReference>,
) -> Seq<(Option<(usize, usize, EdgeKind)>, Seq<char>)> {
    refs.map_values(|r: SymbolReference| (ref_edge(symbol_map, encl, init, r), r.target_symbol@))
}

/// The sources of the recorded edges of kind `k` whose reference names `v`, in order.
pub open spec fn sources_of(recs: Seq<(Option<(usize, usize, EdgeKind)>, Seq<char>)>, k: EdgeKind, v: Seq<char>) -> Seq<usize>
    decreases recs.len(),
{
    if recs.len() == 0 {
        Seq::empty()
    } else {
        let prev = sources_of(recs.drop_last(), k, v);
        let e = recs.last().0;
        if e is Some && (e->0).2 == k && recs.last().1 == v {
            prev.push((e->0).0)
        } else {
            prev
        }
    }
}

/// Edges of kind `k` from `a` to each of `bs` other than `a`, in order.
pub open spec fn fan_edges(a: usize, bs: Seq<usize>, k: EdgeKind) -> Seq<(usize, usize, EdgeKind)>
    decreases bs.len(),
{
    if bs.len() == 0 {
        Seq::empty()
    } else {
        let prev = fan_edges(a, bs.drop_last(), k);
        if bs.last() != a {
            prev.push((a, bs.last(), k))
        } else {
            prev
        }
    }
}

/// Whether the variable `s` is mutable: decided by the first definition of `s` with
/// variable details; mutable when there is none.
pub open spec fn variable_mutable(defs: Seq<SymbolDefinition>, s: Seq<char>) -> bool
    decreases defs.len(),
{
    if defs.len() == 0 {
        true
    } else {
        match defs[0].details {
            SymbolDetails::Variable(v) => if defs[0].symbol_id@ == s {
                v.mutability == Mutability::Mutable
            } else {
                variable_mutable(defs.drop_first(), s)
            },
            _ => variable_mutable(defs.drop_first(), s),
        }
    }
}

/// Shared-state write edges for the first `n` records: each recorded read of a mutable
/// variable links the reader to every writer of that variable.
pub open spec fn shared_state_edges(
    defs: Seq<SymbolDefinition>,
    recs: Seq<(Option<(usize, usize, EdgeKind)>, Seq<char>)>,
    n: int,
) -> Seq<(usize, usize, EdgeKind)>
    decreases n,
{
    if n <= 0 {
        Seq::empty()
    } else {
        let prev = shared_state_edges(defs, recs, n - 1);
        let e = recs[n - 1].0;
        let v = recs[n - 1].1;
        if e is Some && (e->0).2 == EdgeKind::Read && variable_mutable(defs, v) {
            prev + fan_edges((e->0).0, sources_of(recs, EdgeKind::Write, v), EdgeKind::SharedStateWrite)
        } else {
            prev
        }
    }
}

/// The number of typed parameters among parameter models.
pub open spec fn typed_models(ps: Seq<(Seq<char>, Option<Seq<char>>)>) -> nat
    decreases ps.len(),
{
    if ps.len() == 0 {
        0
    } else {
        typed_models(ps.drop_last()) + if ps.last().1 is Some {
            1nat
        } else {
            0nat
        }
    }
}

/// An under-specified function: a function whose signature is incomplete (an untyped
/// parameter, or no return type).
pub open spec fn underspecified(m: NodeModel) -> bool {
    match m {
        NodeModel::Function { parameters, return_types, .. } => !(typed_models(parameters)
            == parameters.len() && return_types.len() > 0),
        NodeModel::Variable { .. } => false,
    }
}

proof fn lemma_typed_models(ps: Seq<crate::domain::node::Parameter>)
    ensures
        typed_models(crate::domain::node::parameter_models(ps)) == crate::domain::node::count_typed(ps),
    decreases ps.len(),
{
    if ps.len() > 0 {
        lemma_typed_models(ps.drop_last());
        assert(crate::domain::node::parameter_models(ps).drop_last() =~= crate::domain::node::parameter_models(
            ps.drop_last(),
        ));
    }
}

/// Call-in edges for the first `n` nodes: each under-specified function that its symbol
/// names links to every caller recorded under that symbol.
pub open spec fn call_in_edges(
    symbols: Seq<Seq<char>>,
    symbol_map: Map<Seq<char>, usize>,
    nodes: Seq<NodeModel>,
    recs: Seq<(Option<(usize, usize, EdgeKind)>, Seq<char>)>,
    n: int,
) -> Seq<(usize, usize, EdgeKind)>
    decreases n,
{
    if n <= 0 {
        Seq::empty()
    } else {
        let prev = call_in_edges(symbols, symbol_map, nodes, recs, n - 1);
        let i = n - 1;
        let s = symbols[i];
        if symbol_map.contains_key(s) && symbol_map[s] == i && underspecified(nodes[i]) {
            prev + fan_edges(i as usize, sources_of(recs, EdgeKind::Call, s), EdgeKind::CallIn)
        } else {
            prev
        }
    }
}

/// The edges of pass 3: shared-state writes, then call-ins.
pub open spec fn dynamic_edges(
    defs: Seq<SymbolDefinition>,
    symbols: Seq<Seq<char>>,
    symbol_map: Map<Seq<char>, usize>,
    nodes: Seq<NodeModel>,
    recs: Seq<(Option<(usize, usize, EdgeKind)>, Seq<char>)>,
) -> Seq<(usize, usize, EdgeKind)> {
    shared_state_edges(defs, recs, recs.len() as int) + call_in_edges(
        symbols,
        symbol_map,
        nodes,
        recs,
        nodes.len() as int,
    )
}

proof fn lemma_fan_sources_grow(
    a: usize,
    recs: Seq<(Option<(usize, usize, EdgeKind)>, Seq<char>)>,
    k: EdgeKind,
    v: Seq<char>,
    kind: EdgeKind,
    m1: int,
    m2: int,
)
    requires
        0 <= m1 <= m2 <= recs.len(),
    ensures
        fan_edges(a, sources_of(recs.take(m1), k, v), kind).len() <= fan_edges(
            a,
            sources_of(recs.take(m2), k, v),
            kind,
        ).len(),
    decreases m2,
{
    if m1 < m2 {
        lemma_fan_sources_grow(a, recs, k, v, kind, m1, m2 - 1);
        assert(recs.take(m2).drop_last() =~= recs.take(m2 - 1));
        let bs = sources_of(recs.take(m2 - 1), k, v);
        assert(bs.push(0usize).drop_last() =~= bs);
        let b2 = sources_of(recs.take(m2), k, v);
        if b2.len() > bs.len() {
            assert(b2.drop_last() =~= bs);
        }
    }
}

proof fn lemma_shared_state_grow(
    defs: Seq<SymbolDefinition>,
    recs: Seq<(Option<(usize, usize, EdgeKind)>, Seq<char>)>,
    n1: int,
    n2: int,
)
    requires
        0 <= n1 <= n2,
    ensures
        shared_state_edges(defs, recs, n1).len() <= shared_state_edges(defs, recs, n2).len(),
    decreases n2,
{
    if n1 < n2 {
        lemma_shared_state_grow(defs, recs, n1, n2 - 1);
    }
}

proof fn lemma_call_in_grow(
    symbols: Seq<Seq<char>>,
    symbol_map: Map<Seq<char>, usize>,
    nodes: Seq<NodeModel>,
    recs: Seq<(Option<(usize, usize, EdgeKind)>, Seq<char>)>,
    n1: int,
    n2: int,
)
    requires
        0 <= n1 <= n2,
    ensures
        call_in_edges(symbols, symbol_map, nodes, recs, n1).len() <= call_in_edges(
            symbols,
            symbol_map,
            nodes,
            recs,
            n2,
        ).len(),
    decreases n2,
{
    if n1 < n2 {
        lemma_call_in_grow(symbols, symbol_map, nodes, recs, n1, n2 - 1);
    }
}


proof fn lemma_fan_no_self_edges(a: usize, bs: Seq<usize>, k: EdgeKind)
    ensures
        no_self_edges(fan_edges(a, bs, k)),
    decreases bs.len(),
{
    if bs.len() > 0 {
        lemma_fan_no_self_edges(a, bs.drop_last(), k);
        let prev = fan_edges(a, bs.drop_last(), k);
        let r = fan_edges(a, bs, k);
        assert forall|e: int| 0 <= e < r.len() implies (#[trigger] r[e]).0 != r[e].1 by {
            if e < prev.len() {
                assert(r[e] == prev[e]);
            }
        }
    }
}

proof fn lemma_concat_no_self_edges(x: Seq<(usize, usize, EdgeKind)>, y: Seq<(usize, usize, EdgeKind)>)
    requires
        no_self_edges(x),
        no_self_edges(y),
    ensures
        no_self_edges(x + y),
{
    assert forall|e: int| 0 <= e < (x + y).len() implies (#[trigger] (x + y)[e]).0 != (x + y)[e].1 by {
        if e < x.len() {
            assert((x + y)[e] == x[e]);
        } else {
            assert((x + y)[e] == y[e - x.len()]);
        }
    }
}

proof fn lemma_shared_state_no_self_edges(
    defs: Seq<SymbolDefinition>,
    recs: Seq<(Option<(usize, usize, EdgeKind)>, Seq<char>)>,
    n: int,
)
    ensures
        no_self_edges(shared_state_edges(defs, recs, n)),
    decreases n,
{
    if n > 0 {
        lemma_shared_state_no_self_edges(defs, recs, n - 1);
        let e = recs[n - 1].0;
        if e is Some && (e->0).2 == EdgeKind::Read && variable_mutable(defs, recs[n - 1].1) {
            lemma_fan_no_self_edges((e->0).0, sources_of(recs, EdgeKind::Write, recs[n - 1].1), EdgeKind::SharedStateWrite);
            lemma_concat_no_self_edges(
                shared_state_edges(defs, recs, n - 1),
                fan_edges((e->0).0, sources_of(recs, EdgeKind::Write, recs[n - 1].1), EdgeKind::SharedStateWrite),
            );
        }
    }
}

proof fn lemma_call_in_no_self_edges(
    symbols: Seq<Seq<char>>,
    symbol_map: Map<Seq<char>, usize>,
    nodes: Seq<NodeModel>,
    recs: Seq<(Option<(usize, usize, EdgeKind)>, Seq<char>)>,
    n: int,
)
    ensures
        no_self_edges(call_in_edges(symbols, symbol_map, nodes, recs, n)),
    decreases n,
{
    if n > 0 {
        lemma_call_in_no_self_edges(symbols, symbol_map, nodes, recs, n - 1);
        let s = symbols[n - 1];
        lemma_fan_no_self_edges((n - 1) as usize, sources_of(recs, EdgeKind::Call, s), EdgeKind::CallIn);
        lemma_concat_no_self_edges(
            call_in_edges(symbols, symbol_map, nodes, recs, n - 1),
            fan_edges((n - 1) as usize, sources_of(recs, EdgeKind::Call, s), EdgeKind::CallIn),
        );
    }
}

/// Pass 3 never makes an edge from a node to itself.
proof fn lemma_dynamic_no_self_edges(
    defs: Seq<SymbolDefinition>,
    symbols: Seq<Seq<char>>,
    symbol_map: Map<Seq<char>, usize>,
    nodes: Seq<NodeModel>,
    recs: Seq<(Option<(usize, usize, EdgeKind)>, Seq<char>)>,
)
    ensures
        no_self_edges(dynamic_edges(defs, symbols, symbol_map, nodes, recs)),
{
    lemma_shared_state_no_self_edges(defs, recs, recs.len() as int);
    lemma_call_in_no_self_edges(symbols, symbol_map, nodes, recs, nodes.len() as int);
    lemma_concat_no_self_edges(
        shared_state_edges(defs, recs, recs.len() as int),
        call_in_edges(symbols, symbol_map, nodes, recs, nodes.len() as int),
    );
}

/// The type symbols of `ts` that are registered, in order.
pub open spec fn registered_only(ts: Seq<Seq<char>>, types: Map<Seq<char>, TypeInfo>) -> Seq<Seq<char>>
    decreases ts.len(),
{
    if ts.len() == 0 {
        Seq::empty()
    } else if types.contains_key(ts.last()) {
        registered_only(ts.drop_last(), types).push(ts.last())
    } else {
        registered_only(ts.drop_last(), types)
    }
}

pub open spec fn with_more_return_types(m: NodeModel, extra: Seq<Seq<char>>) -> NodeModel {
    match m {
        NodeModel::Function {
            core,
            is_async,
            is_generator,
            visibility,
            parameters,
            return_types,
            is_interface_method,
            is_constructor,
            is_di_wired,
        } => NodeModel::Function {
            core,
            is_async,
            is_generator,
            visibility,
            parameters,
            return_types: return_types + extra,
            is_interface_method,
            is_constructor,
            is_di_wired,
        },
        _ => m,
    }
}

pub open spec fn with_var_type(m: NodeModel, t: Seq<char>) -> NodeModel {
    match m {
        NodeModel::Variable { core, var_type, mutability, variable_kind } => NodeModel::Variable {
            core,
            var_type: Some(t),
            mutability,
            variable_kind,
        },
        _ => m,
    }
}

/// Pass 2.5 on one definition: the node under its symbol gets the registered return types
/// (functions) or its registered variable type (variables).
pub open spec fn fill_step(
    symbol_map: Map<Seq<char>, usize>,
    types: Map<Seq<char>, TypeInfo>,
    def: SymbolDefinition,
    nodes: Seq<NodeModel>,
) -> Seq<NodeModel> {
    if !symbol_map.contains_key(def.symbol_id@) || symbol_map[def.symbol_id@] >= nodes.len() {
        nodes
    } else {
        let i = symbol_map[def.symbol_id@] as int;
        match def.details {
            SymbolDetails::Function(f) => if nodes[i] is Function {
                nodes.update(i, with_more_return_types(nodes[i], registered_only(strings_view(f.return_types@), types)))
            } else {
                nodes
            },
            SymbolDetails::Variable(v) => if nodes[i] is Variable && v.var_type is Some
                && types.contains_key(v.var_type->0@) {
                nodes.update(i, with_var_type(nodes[i], v.var_type->0@))
            } else {
                nodes
            },
            _ => nodes,
        }
    }
}

pub open spec fn fill_defs_step(
    symbol_map: Map<Seq<char>, usize>,
    types: Map<Seq<char>, TypeInfo>,
    doc: DocumentSemantics,
    nodes: Seq<NodeModel>,
    j: int,
) -> Seq<NodeModel>
    decreases j,
{
    if j <= 0 {
        nodes
    } else {
        fill_step(symbol_map, types, doc.definitions@[j - 1], fill_defs_step(symbol_map, types, doc, nodes, j - 1))
    }
}

/// Pass 2.5 over the first `d` documents.
pub open spec fn fill_pass(
    symbol_map: Map<Seq<char>, usize>,
    types: Map<Seq<char>, TypeInfo>,
    docs: Seq<DocumentSemantics>,
    nodes: Seq<NodeModel>,
    d: int,
) -> Seq<NodeModel>
    decreases d,
{
    if d <= 0 {
        nodes
    } else {
        fill_defs_step(symbol_map, types, docs[d - 1], fill_pass(symbol_map, types, docs, nodes, d - 1), docs[d - 1].definitions@.len() as int)
    }
}

// -----------------------------------------------------------------------------
// Executable passes
// -----------------------------------------------------------------------------

/// The lowercase file extension of a path (`path.split('.').next_back()`, lowercased).
fn file_extension_lowercase(path: &String) -> (r: String)
    ensures
        r@ == lowercase(extension_of(path@)),
{
    let chars = str_chars(path.as_str());
    let n = chars.len();
    let ext = match rfind_char(chars.as_slice(), '.') {
        Some(i) => {
            assert(i < n);
            let v = crate::text::slice_chars(chars.as_slice(), i + 1, chars.len());
            assert(v@ =~= path@.skip(i + 1));
            v
        },
        None => {
            let v = crate::text::slice_chars(chars.as_slice(), 0, chars.len());
            assert(v@ =~= path@);
            v
        },
    };
    let ext_string = string_from_chars(ext.as_slice());
    str_to_lowercase(ext_string.as_str())
}

/// The signature text the builder hands to the scorer starts with `(`, so the scorer can
/// read it.
proof fn lemma_signature_readable(def: SymbolDefinition, language: Option<Seq<char>>)
    ensures
        spec_signature(def) matches Some(sig) ==> crate::domain::policy::signature_readable_in(
            language,
            sig,
        ),
{
    if let Some(sig) = spec_signature(def) {
        assert(sig[0] == '(');
        crate::text::lemma_find_first_at_start(sig, '(');
        crate::text::lemma_find_from_bounds(sig, seq![')'], 0);
        crate::text::lemma_rfind_char_bounds(sig, ')');
        if let Some(b) = crate::text::find_first(sig, seq![')']) {
            assert(sig.subrange(b, b + 1) == seq![')']);
            assert(sig[b] == sig.subrange(b, b + 1)[0]);
            assert(b != 0);
        }
    }
}

/// The graph, registry and node-symbol set of pass 1 hold the build state `st`.
pub open spec fn pass1_holds(
    graph: ContextGraph,
    registry: crate::domain::type_registry::TypeRegistry,
    node_symbols: vstd::hash_set::StringHashSet,
    st: BuildState,
) -> bool {
    &&& graph.wf()
    &&& crate::domain::node::node_models(graph.nodes()) == st.nodes
    &&& graph.edges() == Seq::<(usize, usize, EdgeKind)>::empty()
    &&& graph.symbol_map() == st.symbol_map
    &&& st.symbols.len() == st.nodes.len()
    &&& forall|i: int| 0 <= i < st.symbols.len() ==> #[trigger] graph.symbol_of(i) == st.symbols[i]
    &&& registry@ == st.types
    &&& node_symbols@ == st.symbol_map.dom()
}

impl<S: SizeFunction, D: DocumentationScorer> GraphBuilder<S, D> {
    /// Pass 1 on one definition (see `def_step`).
    fn add_definition(
        &self,
        graph: &mut ContextGraph,
        registry: &mut crate::domain::type_registry::TypeRegistry,
        node_symbols: &mut vstd::hash_set::StringHashSet,
        data: &SemanticData,
        document: &DocumentSemantics,
        source: &String,
        def: &SymbolDefinition,
        Ghost(st): Ghost<BuildState>,
    )
        requires
            pass1_holds(*old(graph), *old(registry), *old(node_symbols), st),
            st.nodes.len() < u32::MAX,
            !spec_should_skip_kind(def.kind) ==> self.size_fn().accepts(
                source@,
                size_span(*def, source@, is_interface_method_of(*def, *data)),
            ),
        ensures
            pass1_holds(
                *final(graph),
                *final(registry),
                *final(node_symbols),
                self.def_step(*data, *document, source@, *def, st),
            ),
    {
        if should_skip_kind(&def.kind) {
            return;
        }
        let node_id = graph.node_count() as u32;
        let span = convert_span(&def.span);
        let is_interface_method = match def.kind {
            SymbolKind::Method | SymbolKind::Constructor => is_enclosed_by_abstract_type(
                &def.enclosing_symbol,
                data,
            ),
            _ => false,
        };
        assert(is_interface_method == is_interface_method_of(*def, *data));
        // For interface methods only the signature counts, not an implementation body.
        let context_size = if is_interface_method {
            let signature_span = extract_signature_span(&def.span, source.as_str());
            self.size_function.compute(source.as_str(), &signature_span, def.documentation.as_slice())
        } else {
            self.size_function.compute(
                source.as_str(),
                &convert_span_for_size(&def.span),
                def.documentation.as_slice(),
            )
        };
        let doc_text: Option<&str> = if def.documentation.len() > 0 {
            Some(def.documentation[0].as_str())
        } else {
            None
        };
        assert(opt_str_view(doc_text) == first_doc_text(*def));
        let language = file_extension_lowercase(&document.relative_path);
        let signature = extract_signature(def);
        let node_info = NodeInfo {
            node_type: infer_node_type_from_kind(&def.kind),
            name: def.name.clone(),
            signature,
            language: Some(language),
        };
        proof {
            lemma_signature_readable(*def, node_info.model().language);
            assert(node_info.model() == node_info_of(*def, *document));
        }
        let doc_score = self.doc_scorer.score(&node_info, doc_text);
        if is_type_kind(&def.kind) {
            let info = create_type_info(def, context_size, doc_score);
            registry.register(def.symbol_id.clone(), info);
        } else if is_node_kind(&def.kind) {
            node_symbols.insert(def.symbol_id.clone());
            let core = NodeCore::new(
                node_id,
                def.name.clone(),
                clone_opt_string(&def.enclosing_symbol),
                context_size,
                span,
                doc_score,
                def.is_external,
                document.relative_path.clone(),
            );
            let node = create_node_from_definition(core, def, is_interface_method);
            let ghost before = *graph;
            let idx = graph.add_node(def.symbol_id.clone(), node);
            proof {
                let nst = self.def_step(*data, *document, source@, *def, st);
                assert(crate::domain::node::node_models(graph.nodes()) =~= crate::domain::node::node_models(
                    before.nodes(),
                ).push(node.model()));
                assert(nst.nodes == st.nodes.push(node.model()));
                assert forall|i: int| 0 <= i < nst.symbols.len() implies #[trigger] graph.symbol_of(i) == nst.symbols[i] by {
                    if i < st.symbols.len() {
                        assert(graph.symbol_of(i) == before.symbol_of(i));
                    }
                }
                assert(node_symbols@ =~= nst.symbol_map.dom());
            }
        }
    }
}

/// The constructors of registered types, found among all definitions (see `init_map_of`).
fn build_init_map(
    data: &SemanticData,
    registry: &crate::domain::type_registry::TypeRegistry,
    node_symbols: &vstd::hash_set::StringHashSet,
) -> (r: vstd::hash_map::StringHashMap<String>)
    ensures
        crate::domain::semantic::symbol_map_view(r@) == init_map_of(
            crate::domain::semantic::doc_definitions(data.documents@),
            registry@,
            node_symbols@,
        ),
{
    let mut map: vstd::hash_map::StringHashMap<String> = vstd::hash_map::StringHashMap::new();
    let ghost docs = data.documents@;
    let mut d: usize = 0;
    assert(crate::domain::semantic::symbol_map_view(map@) =~= Map::<Seq<char>, Seq<char>>::empty());
    while d < data.documents.len()
        invariant
            d <= docs.len(),
            docs == data.documents@,
            crate::domain::semantic::symbol_map_view(map@) == init_map_of(
                crate::domain::semantic::doc_definitions(docs.take(d as int)),
                registry@,
                node_symbols@,
            ),
        decreases docs.len() - d,
    {
        let doc = &data.documents[d];
        let ghost base = crate::domain::semantic::doc_definitions(docs.take(d as int));
        proof {
            crate::domain::semantic::lemma_doc_definitions_prefix(docs, d as int);
        }
        let mut j: usize = 0;
        assert(base + doc.definitions@.take(0) =~= base);
        while j < doc.definitions.len()
            invariant
                j <= doc.definitions@.len(),
                crate::domain::semantic::symbol_map_view(map@) == init_map_of(
                    base + doc.definitions@.take(j as int),
                    registry@,
                    node_symbols@,
                ),
            decreases doc.definitions@.len() - j,
        {
            let def = &doc.definitions[j];
            proof {
                assert((base + doc.definitions@.take(j as int + 1)).drop_last() =~= base
                    + doc.definitions@.take(j as int));
                assert((base + doc.definitions@.take(j as int + 1)).last() == doc.definitions@[j as int]);
            }
            let name = str_chars(def.name.as_str());
            if def.kind == SymbolKind::Function && str_equals(name.as_slice(), "__init__") {
                match &def.enclosing_symbol {
                    Some(parent) => {
                        if registry.contains(parent.as_str()) && node_symbols.contains(def.symbol_id.as_str()) {
                            let ghost old_map = map@;
                            map.insert(parent.clone(), def.symbol_id.clone());
                            proof {
                                assert(crate::domain::semantic::symbol_map_view(map@)
                                    =~= crate::domain::semantic::symbol_map_view(old_map).insert(
                                    parent@,
                                    def.symbol_id@,
                                ));
                            }
                        }
                    },
                    None => {},
                }
            }
            j = j + 1;
        }
        proof {
            assert(doc.definitions@.take(j as int) =~= doc.definitions@);
        }
        d = d + 1;
    }
    proof {
        assert(docs.take(d as int) =~= docs);
    }
    map
}


/// The records as views.
pub open spec fn records_view(rs: Seq<(Option<(usize, usize, EdgeKind)>, String)>) -> Seq<
    (Option<(usize, usize, EdgeKind)>, Seq<char>),
> {
    rs.map_values(|r: (Option<(usize, usize, EdgeKind)>, String)| (r.0, r.1@))
}

/// The edge recorded joins nodes below `n`.
pub open spec fn record_in_graph(r: (Option<(usize, usize, EdgeKind)>, String), n: nat) -> bool {
    match r.0 {
        Some(e) => e.0 < n && e.1 < n,
        None => true,
    }
}

/// Whether the variable `symbol` is mutable (see `variable_mutable`), over the first `n` of
/// the definitions `all`.
fn variable_is_mutable(all: &Vec<&SymbolDefinition>, n: usize, symbol: &str, Ghost(defs): Ghost<Seq<SymbolDefinition>>) -> (r: bool)
    requires
        n <= all@.len(),
        defs.len() == n,
        forall|i: int| 0 <= i < n ==> *(#[trigger] all@[i]) == defs[i],
    ensures
        r == variable_mutable(defs, symbol@),
{
    let sym = str_chars(symbol);
    let mut i: usize = 0;
    assert(defs.skip(0) =~= defs);
    while i < n
        invariant
            i <= n,
            n <= all@.len(),
            defs.len() == n,
            sym@ == symbol@,
            forall|k: int| 0 <= k < n ==> *(#[trigger] all@[k]) == defs[k],
            variable_mutable(defs, symbol@) == variable_mutable(defs.skip(i as int), symbol@),
        decreases n - i,
    {
        let d = all[i];
        assert(defs.skip(i as int)[0] == *d);
        assert(defs.skip(i as int).drop_first() =~= defs.skip(i as int + 1));
        match &d.details {
            SymbolDetails::Variable(v) => {
                let id = str_chars(d.symbol_id.as_str());
                if crate::text::chars_eq(id.as_slice(), sym.as_slice()) {
                    return v.mutability == Mutability::Mutable;
                }
            },
            _ => {},
        }
        i = i + 1;
    }
    true
}

/// Pass 3: add the shared-state write and call-in edges (see `dynamic_edges`), unless their
/// number would take the graph past `u32::MAX` edges, in which case `false` is returned.
fn add_dynamic_edges(
    graph: &mut ContextGraph,
    all: &Vec<&SymbolDefinition>,
    n_defs: usize,
    records: &Vec<(Option<(usize, usize, EdgeKind)>, String)>,
    Ghost(defs): Ghost<Seq<SymbolDefinition>>,
) -> (ok: bool)
    requires
        old(graph).wf(),
        old(graph).edges().len() <= u32::MAX,
        n_defs <= all@.len(),
        defs.len() == n_defs,
        forall|i: int| 0 <= i < n_defs ==> *(#[trigger] all@[i]) == defs[i],
        forall|k: int| 0 <= k < records@.len() ==> record_in_graph(#[trigger] records@[k], old(graph).nodes().len()),
    ensures
        final(graph).wf(),
        final(graph).nodes() == old(graph).nodes(),
        final(graph).symbol_map() == old(graph).symbol_map(),
        forall|i: int| #[trigger] final(graph).symbol_of(i) == old(graph).symbol_of(i),
        final(graph).types() == old(graph).types(),
        ok == (old(graph).edges().len() + dynamic_edges(
            defs,
            Seq::new(old(graph).nodes().len(), |i: int| old(graph).symbol_of(i)),
            old(graph).symbol_map(),
            crate::domain::node::node_models(old(graph).nodes()),
            records_view(records@),
        ).len() <= u32::MAX),
        ok ==> final(graph).edges() == old(graph).edges() + dynamic_edges(
            defs,
            Seq::new(old(graph).nodes().len(), |i: int| old(graph).symbol_of(i)),
            old(graph).symbol_map(),
            crate::domain::node::node_models(old(graph).nodes()),
            records_view(records@),
        ),
{
    let ghost g0 = *graph;
    let ghost base = graph.edges();
    let ghost rv = records_view(records@);
    let ghost symbols = Seq::new(g0.nodes().len(), |i: int| g0.symbol_of(i));
    let ghost nodes = crate::domain::node::node_models(g0.nodes());
    let ghost sm = g0.symbol_map();
    let ghost total = dynamic_edges(defs, symbols, sm, nodes, rv);
    let ghost full_s = shared_state_edges(defs, rv, rv.len() as int);
    let ghost full_c = call_in_edges(symbols, sm, nodes, rv, nodes.len() as int);
    assert(records@.len() == rv.len());
    // 1. Shared-state writes: each reader of a mutable variable to each of its writers
    let mut k: usize = 0;
    while k < records.len()
        invariant
            k <= records@.len(),
            g0 == *old(graph),
            symbols == Seq::new(g0.nodes().len(), |i: int| g0.symbol_of(i)),
            nodes == crate::domain::node::node_models(g0.nodes()),
            sm == g0.symbol_map(),
            full_s == shared_state_edges(defs, rv, rv.len() as int),
            full_c == call_in_edges(symbols, sm, nodes, rv, nodes.len() as int),
            total == full_s + full_c,
            base == old(graph).edges(),
            rv == records_view(records@),
            records@.len() == rv.len(),
            graph.wf(),
            graph.nodes() == g0.nodes(),
            graph.symbol_map() == g0.symbol_map(),
            forall|i: int| #[trigger] graph.symbol_of(i) == g0.symbol_of(i),
            graph.types() == g0.types(),
            graph.edges() == base + shared_state_edges(defs, rv, k as int),
            graph.edges().len() <= u32::MAX,
            n_defs <= all@.len(),
            defs.len() == n_defs,
            forall|i: int| 0 <= i < n_defs ==> *(#[trigger] all@[i]) == defs[i],
            forall|q: int| 0 <= q < records@.len() ==> record_in_graph(#[trigger] records@[q], g0.nodes().len()),
        decreases records@.len() - k,
    {
        let rec = &records[k];
        assert(rv[k as int] == (rec.0, rec.1@));
        let ghost before = graph.edges();
        match rec.0 {
            Some((a, _, EdgeKind::Read)) => {
                if variable_is_mutable(all, n_defs, rec.1.as_str(), Ghost(defs)) {
                    let v = str_chars(rec.1.as_str());
                    let ghost t = rec.1@;
                    let mut m: usize = 0;
                    assert(rv.take(0) =~= Seq::<(Option<(usize, usize, EdgeKind)>, Seq<char>)>::empty());
                    while m < records.len()
                        invariant
                            m <= records@.len(),
                            k < records@.len(),
                            g0 == *old(graph),
                            symbols == Seq::new(g0.nodes().len(), |i: int| g0.symbol_of(i)),
                            nodes == crate::domain::node::node_models(g0.nodes()),
                            sm == g0.symbol_map(),
                            full_s == shared_state_edges(defs, rv, rv.len() as int),
                            full_c == call_in_edges(symbols, sm, nodes, rv, nodes.len() as int),
                            total == full_s + full_c,
                            base == old(graph).edges(),
                            before == base + shared_state_edges(defs, rv, k as int),
                            rv[k as int] == (Some((a, (rv[k as int].0->0).1, EdgeKind::Read)), t),
                            variable_mutable(defs, t),
                            rv == records_view(records@),
                            records@.len() == rv.len(),
                            v@ == t,
                            graph.wf(),
                            graph.nodes() == g0.nodes(),
                            graph.symbol_map() == g0.symbol_map(),
                            forall|i: int| #[trigger] graph.symbol_of(i) == g0.symbol_of(i),
                            graph.types() == g0.types(),
                            graph.edges() == before + fan_edges(
                                a,
                                sources_of(rv.take(m as int), EdgeKind::Write, t),
                                EdgeKind::SharedStateWrite,
                            ),
                            graph.edges().len() <= u32::MAX,
                            a < g0.nodes().len(),
                            forall|q: int| 0 <= q < records@.len() ==> record_in_graph(#[trigger] records@[q], g0.nodes().len()),
                        decreases records@.len() - m,
                    {
                        let r2 = &records[m];
                        assert(rv[m as int] == (r2.0, r2.1@));
                        assert(rv.take(m as int + 1).drop_last() =~= rv.take(m as int));
                        assert(rv.take(m as int + 1).last() == rv[m as int]);
                        let ghost prev_bs = sources_of(rv.take(m as int), EdgeKind::Write, t);
                        match r2.0 {
                            Some((w, _, EdgeKind::Write)) => {
                                let name = str_chars(r2.1.as_str());
                                if crate::text::chars_eq(name.as_slice(), v.as_slice()) {
                                    assert(sources_of(rv.take(m as int + 1), EdgeKind::Write, t) == prev_bs.push(w));
                                    assert(prev_bs.push(w).drop_last() =~= prev_bs);
                                    if w != a {
                                        if graph.edge_count() >= u32::MAX as usize {
                                            proof {
                                                lemma_fan_sources_grow(a, rv, EdgeKind::Write, t, EdgeKind::SharedStateWrite, m as int + 1, rv.len() as int);
                                                assert(rv.take(rv.len() as int) =~= rv);
                                                assert(fan_edges(a, prev_bs.push(w), EdgeKind::SharedStateWrite).len() == fan_edges(a, prev_bs, EdgeKind::SharedStateWrite).len() + 1);
                                                assert(shared_state_edges(defs, rv, k as int + 1) == shared_state_edges(defs, rv, k as int) + fan_edges(a, sources_of(rv, EdgeKind::Write, t), EdgeKind::SharedStateWrite));
                                                lemma_shared_state_grow(defs, rv, k as int + 1, rv.len() as int);
                                            }
                                            return false;
                                        }
                                        graph.add_edge(a, w, EdgeKind::SharedStateWrite);
                                    }
                                }
                            },
                            _ => {},
                        }
                        m = m + 1;
                    }
                    proof {
                        assert(rv.take(rv.len() as int) =~= rv);
                    }
                }
            },
            _ => {},
        }
        k = k + 1;
    }
    assert(shared_state_edges(defs, rv, rv.len() as int) == full_s);
    // 2. Call-ins: each under-specified function to each of its callers
    let ghost base2 = graph.edges();
    let mut i: usize = 0;
    let n = graph.node_count();
    while i < n
        invariant
            i <= n,
            n == g0.nodes().len(),
            g0 == *old(graph),
            symbols == Seq::new(g0.nodes().len(), |i: int| g0.symbol_of(i)),
            nodes == crate::domain::node::node_models(g0.nodes()),
            sm == g0.symbol_map(),
            full_s == shared_state_edges(defs, rv, rv.len() as int),
            full_c == call_in_edges(symbols, sm, nodes, rv, nodes.len() as int),
            total == full_s + full_c,
            base == old(graph).edges(),

            rv == records_view(records@),
            records@.len() == rv.len(),
            graph.wf(),
            graph.nodes() == g0.nodes(),
            graph.symbol_map() == g0.symbol_map(),
            forall|j: int| #[trigger] graph.symbol_of(j) == g0.symbol_of(j),
            graph.types() == g0.types(),
            base2 == base + full_s,
            graph.edges() == base2 + call_in_edges(symbols, sm, nodes, rv, i as int),
            graph.edges().len() <= u32::MAX,
            forall|q: int| 0 <= q < records@.len() ==> record_in_graph(#[trigger] records@[q], g0.nodes().len()),
        decreases n - i,
    {
        let sym: Option<Vec<char>> = match graph.symbol_for_node(i) {
            Some(s) => Some(str_chars(s.as_str())),
            None => None,
        };
        let under = match graph.node(i) {
            Node::Function(f) => {
                proof {
                    lemma_typed_models(f.parameters@);
                }
                !f.is_signature_complete()
            },
            Node::Variable(_) => false,
        };
        assert(under == underspecified(nodes[i as int]));
        assert(symbols[i as int] == g0.symbol_of(i as int));
        let ghost before = graph.edges();
        match sym {
            Some(v) => {
                if under {
                    let ghost t = v@;
                    let mut m: usize = 0;
                    assert(rv.take(0) =~= Seq::<(Option<(usize, usize, EdgeKind)>, Seq<char>)>::empty());
                    while m < records.len()
                        invariant
                            m <= records@.len(),
                            i < n,
                            g0 == *old(graph),
                            symbols == Seq::new(g0.nodes().len(), |i: int| g0.symbol_of(i)),
                            nodes == crate::domain::node::node_models(g0.nodes()),
                            sm == g0.symbol_map(),
                            full_s == shared_state_edges(defs, rv, rv.len() as int),
                            full_c == call_in_edges(symbols, sm, nodes, rv, nodes.len() as int),
                            total == full_s + full_c,
                            base == old(graph).edges(),
                            base2 == base + full_s,
                            before == base2 + call_in_edges(symbols, sm, nodes, rv, i as int),
                            sm.contains_key(t) && sm[t] == i && t == symbols[i as int],
                            underspecified(nodes[i as int]),
                            n == g0.nodes().len(),
                            rv == records_view(records@),
                            records@.len() == rv.len(),
                            v@ == t,
                            graph.wf(),
                            graph.nodes() == g0.nodes(),
                            graph.symbol_map() == g0.symbol_map(),
                            forall|j: int| #[trigger] graph.symbol_of(j) == g0.symbol_of(j),
                            graph.types() == g0.types(),
                            graph.edges() == before + fan_edges(
                                i,
                                sources_of(rv.take(m as int), EdgeKind::Call, t),
                                EdgeKind::CallIn,
                            ),
                            graph.edges().len() <= u32::MAX,
                            forall|q: int| 0 <= q < records@.len() ==> record_in_graph(#[trigger] records@[q], g0.nodes().len()),
                        decreases records@.len() - m,
                    {
                        let r2 = &records[m];
                        assert(rv[m as int] == (r2.0, r2.1@));
                        assert(rv.take(m as int + 1).drop_last() =~= rv.take(m as int));
                        assert(rv.take(m as int + 1).last() == rv[m as int]);
                        let ghost prev_bs = sources_of(rv.take(m as int), EdgeKind::Call, t);
                        match r2.0 {
                            Some((c, _, EdgeKind::Call)) => {
                                let name = str_chars(r2.1.as_str());
                                if crate::text::chars_eq(name.as_slice(), v.as_slice()) {
                                    assert(sources_of(rv.take(m as int + 1), EdgeKind::Call, t) == prev_bs.push(c));
                                    assert(prev_bs.push(c).drop_last() =~= prev_bs);
                                    if c != i {
                                        if graph.edge_count() >= u32::MAX as usize {
                                            proof {
                                                lemma_fan_sources_grow(i, rv, EdgeKind::Call, t, EdgeKind::CallIn, m as int + 1, rv.len() as int);
                                                assert(rv.take(rv.len() as int) =~= rv);
                                                assert(fan_edges(i, prev_bs.push(c), EdgeKind::CallIn).len() == fan_edges(i, prev_bs, EdgeKind::CallIn).len() + 1);
                                                assert(call_in_edges(symbols, sm, nodes, rv, i as int + 1) == call_in_edges(symbols, sm, nodes, rv, i as int) + fan_edges(i, sources_of(rv, EdgeKind::Call, t), EdgeKind::CallIn));
                                                lemma_call_in_grow(symbols, sm, nodes, rv, i as int + 1, nodes.len() as int);
                                            }
                                            return false;
                                        }
                                        graph.add_edge(i, c, EdgeKind::CallIn);
                                    }
                                }
                            },
                            _ => {},
                        }
                        m = m + 1;
                    }
                    proof {
                        assert(rv.take(rv.len() as int) =~= rv);
                    }
                }
            },
            None => {},
        }
        i = i + 1;
    }
    true
}

/// Pass 2 on one reference (see `ref_step`).
fn add_reference(
    graph: &mut ContextGraph,
    node_symbols: &vstd::hash_set::StringHashSet,
    enclosing_map: &vstd::hash_map::StringHashMap<String>,
    init_map: &vstd::hash_map::StringHashMap<String>,
    reference: &SymbolReference,
) -> (added: Option<(usize, usize, EdgeKind)>)
    requires
        old(graph).wf(),
        node_symbols@ == old(graph).symbol_map().dom(),
        old(graph).edges().len() < u32::MAX,
        crate::domain::semantic::resolves(
            node_symbols@,
            crate::domain::semantic::symbol_map_view(enclosing_map@),
            reference.enclosing_symbol@,
        ),
        crate::domain::semantic::resolves(
            node_symbols@,
            crate::domain::semantic::symbol_map_view(enclosing_map@),
            reference.target_symbol@,
        ),
    ensures
        added == ref_edge(
            old(graph).symbol_map(),
            crate::domain::semantic::symbol_map_view(enclosing_map@),
            crate::domain::semantic::symbol_map_view(init_map@),
            *reference,
        ),
        final(graph).wf(),
        final(graph).edges() == ref_step(
            old(graph).symbol_map(),
            crate::domain::semantic::symbol_map_view(enclosing_map@),
            crate::domain::semantic::symbol_map_view(init_map@),
            *reference,
            old(graph).edges(),
        ),
        final(graph).edges().len() <= old(graph).edges().len() + 1,
        final(graph).nodes() == old(graph).nodes(),
        final(graph).symbol_map() == old(graph).symbol_map(),
        forall|i: int| #[trigger] final(graph).symbol_of(i) == old(graph).symbol_of(i),
        final(graph).types() == old(graph).types(),
{
    let ghost map = crate::domain::semantic::symbol_map_view(enclosing_map@);
    // Resolve source and target to their nearest enclosing nodes
    let source_node_sym = crate::domain::semantic::resolve_to_node_symbol(
        reference.enclosing_symbol.as_str(),
        node_symbols,
        enclosing_map,
    );
    let target_node_sym = crate::domain::semantic::resolve_to_node_symbol(
        reference.target_symbol.as_str(),
        node_symbols,
        enclosing_map,
    );
    let source_sym = match source_node_sym {
        Some(s) => s,
        None => {
            return None;
        },
    };
    let source_idx = match graph.get_node_by_symbol(source_sym.as_str()) {
        Some(idx) => idx,
        None => {
            return None;
        },
    };
    let target_idx = match &target_node_sym {
        Some(t) => graph.get_node_by_symbol(t.as_str()),
        None => None,
    };
    let target_idx = match target_idx {
        Some(t) => t,
        None => {
            // A call on a type goes to the type's constructor
            if reference.role != ReferenceRole::Call {
                return None;
            }
            match init_map.get(reference.target_symbol.as_str()) {
                Some(init_sym) => match graph.get_node_by_symbol(init_sym.as_str()) {
                    Some(t) => t,
                    None => {
                        return None;
                    },
                },
                None => {
                    return None;
                },
            }
        },
    };
    if source_idx == target_idx {
        return None;
    }
    if reference.role == ReferenceRole::Call {
        graph.add_edge(source_idx, target_idx, EdgeKind::Call);
        return Some((source_idx, target_idx, EdgeKind::Call));
    }
    if reference.role == ReferenceRole::Read || reference.role == ReferenceRole::Write {
        let edge_kind = if reference.role == ReferenceRole::Write {
            EdgeKind::Write
        } else {
            EdgeKind::Read
        };
        graph.add_edge(source_idx, target_idx, edge_kind);
        return Some((source_idx, target_idx, edge_kind));
    }
    None
}

/// The registered type symbols of `ts`, in order.
fn registered_return_types(
    ts: &Vec<String>,
    registry: &crate::domain::type_registry::TypeRegistry,
) -> (r: Vec<String>)
    ensures
        strings_view(r@) == registered_only(strings_view(ts@), registry@),
{
    let mut r: Vec<String> = Vec::new();
    let mut i: usize = 0;
    while i < ts.len()
        invariant
            i <= ts@.len(),
            strings_view(r@) == registered_only(strings_view(ts@.take(i as int)), registry@),
        decreases ts@.len() - i,
    {
        proof {
            assert(strings_view(ts@.take(i as int + 1)).drop_last() =~= strings_view(ts@.take(i as int)));
            assert(strings_view(ts@.take(i as int + 1)).last() == ts@[i as int]@);
        }
        if registry.contains(ts[i].as_str()) {
            let ghost before = r@;
            r.push(ts[i].clone());
            assert(strings_view(r@) =~= strings_view(before).push(ts@[i as int]@));
        }
        i = i + 1;
    }
    assert(ts@.take(i as int) =~= ts@);
    r
}

/// Pass 2.5 on one definition (see `fill_step`).
fn fill_definition(
    graph: &mut ContextGraph,
    registry: &crate::domain::type_registry::TypeRegistry,
    def: &SymbolDefinition,
)
    requires
        old(graph).wf(),
    ensures
        final(graph).wf(),
        crate::domain::node::node_models(final(graph).nodes()) == fill_step(
            old(graph).symbol_map(),
            registry@,
            *def,
            crate::domain::node::node_models(old(graph).nodes()),
        ),
        final(graph).nodes().len() == old(graph).nodes().len(),
        final(graph).edges() == old(graph).edges(),
        final(graph).symbol_map() == old(graph).symbol_map(),
        forall|i: int| #[trigger] final(graph).symbol_of(i) == old(graph).symbol_of(i),
        final(graph).types() == old(graph).types(),
{
    let ghost old_models = crate::domain::node::node_models(graph.nodes());
    let idx = match graph.get_node_by_symbol(def.symbol_id.as_str()) {
        Some(idx) => idx,
        None => {
            return;
        },
    };
    let ghost before = *graph;
    match &def.details {
        SymbolDetails::Function(func_details) => {
            let mut extra = registered_return_types(&func_details.return_types, registry);
            let node = graph.node_mut(idx);
            match node {
                Node::Function(func_node) => {
                    let ghost old_rt = func_node.return_types@;
                    func_node.return_types.append(&mut extra);
                    assert(strings_view(func_node.return_types@) =~= strings_view(old_rt)
                        + registered_only(strings_view(func_details.return_types@), registry@));
                },
                Node::Variable(_) => {},
            }
            proof {
                assert(crate::domain::node::node_models(graph.nodes()) =~= fill_step(
                    before.symbol_map(),
                    registry@,
                    *def,
                    old_models,
                ));
            }
        },
        SymbolDetails::Variable(var_details) => {
            match &var_details.var_type {
                Some(type_id) => {
                    if registry.contains(type_id.as_str()) {
                        let node = graph.node_mut(idx);
                        match node {
                            Node::Variable(var_node) => {
                                var_node.var_type = Some(type_id.clone());
                            },
                            Node::Function(_) => {},
                        }
                        proof {
                            assert(crate::domain::node::node_models(graph.nodes()) =~= fill_step(
                                before.symbol_map(),
                                registry@,
                                *def,
                                old_models,
                            ));
                        }
                    }
                },
                None => {},
            }
        },
        _ => {},
    }
}

/// Every definition of document `d` that is not skipped can be sized on its source.
pub open spec fn sizes_defined<S: SizeFunction, D: DocumentationScorer>(
    b: GraphBuilder<S, D>,
    data: SemanticData,
    sources: Seq<String>,
) -> bool {
    forall|d: int, j: int|
        0 <= d < data.documents@.len() && 0 <= j < data.documents@[d].definitions@.len() ==> {
            let def = #[trigger] data.documents@[d].definitions@[j];
            !spec_should_skip_kind(def.kind) ==> b.size_fn().accepts(
                sources[d]@,
                size_span(def, sources[d]@, is_interface_method_of(def, data)),
            )
        }
}

/// Resolving the symbols of every reference to their nearest enclosing nodes stops.
pub open spec fn references_resolve(data: SemanticData) -> bool {
    let defs = crate::domain::semantic::doc_definitions(data.documents@);
    let encl = crate::domain::semantic::enclosing_map_of(defs);
    let nodes = crate::domain::semantic::node_symbols_of(defs);
    forall|d: int, j: int|
        0 <= d < data.documents@.len() && 0 <= j < data.documents@[d].references@.len() ==> {
            let r = #[trigger] data.documents@[d].references@[j];
            crate::domain::semantic::resolves(nodes, encl, r.enclosing_symbol@)
                && crate::domain::semantic::resolves(nodes, encl, r.target_symbol@)
        }
}

/// Resolving the symbols of every reference stops within `fuel` steps.
pub open spec fn references_end_within(data: SemanticData, fuel: nat) -> bool {
    let defs = crate::domain::semantic::doc_definitions(data.documents@);
    let encl = crate::domain::semantic::enclosing_map_of(defs);
    let nodes = crate::domain::semantic::node_symbols_of(defs);
    forall|d: int, j: int|
        0 <= d < data.documents@.len() && 0 <= j < data.documents@[d].references@.len() ==> {
            let r = #[trigger] data.documents@[d].references@[j];
            &&& crate::domain::semantic::resolve_within(nodes, encl, r.enclosing_symbol@, fuel) is Some
            &&& crate::domain::semantic::resolve_within(nodes, encl, r.target_symbol@, fuel) is Some
        }
}

/// Resolution that stops within some number of steps stops.
pub proof fn lemma_references_end(data: SemanticData, fuel: nat)
    requires
        references_end_within(data, fuel),
    ensures
        references_resolve(data),
{
}

/// The core of a node model.
pub open spec fn model_core(m: NodeModel) -> NodeCore {
    match m {
        NodeModel::Function { core, .. } => core,
        NodeModel::Variable { core, .. } => core,
    }
}

/// Each node's id is its index.
pub open spec fn ids_are_indices(nodes: Seq<NodeModel>) -> bool {
    forall|i: int| 0 <= i < nodes.len() ==> (#[trigger] model_core(nodes[i])).id == i
}

/// No edge joins a node to itself.
pub open spec fn no_self_edges(edges: Seq<(usize, usize, EdgeKind)>) -> bool {
    forall|e: int| 0 <= e < edges.len() ==> (#[trigger] edges[e]).0 != edges[e].1
}

proof fn lemma_fill_step_cores(
    symbol_map: Map<Seq<char>, usize>,
    types: Map<Seq<char>, TypeInfo>,
    def: SymbolDefinition,
    nodes: Seq<NodeModel>,
)
    ensures
        fill_step(symbol_map, types, def, nodes).len() == nodes.len(),
        forall|i: int|
            0 <= i < nodes.len() ==> #[trigger] model_core(fill_step(symbol_map, types, def, nodes)[i])
                == model_core(nodes[i]),
{
}

proof fn lemma_fill_defs_cores(
    symbol_map: Map<Seq<char>, usize>,
    types: Map<Seq<char>, TypeInfo>,
    doc: DocumentSemantics,
    nodes: Seq<NodeModel>,
    j: int,
)
    ensures
        fill_defs_step(symbol_map, types, doc, nodes, j).len() == nodes.len(),
        forall|i: int|
            0 <= i < nodes.len() ==> #[trigger] model_core(fill_defs_step(symbol_map, types, doc, nodes, j)[i])
                == model_core(nodes[i]),
    decreases j,
{
    if j > 0 {
        lemma_fill_defs_cores(symbol_map, types, doc, nodes, j - 1);
        lemma_fill_step_cores(
            symbol_map,
            types,
            doc.definitions@[j - 1],
            fill_defs_step(symbol_map, types, doc, nodes, j - 1),
        );
    }
}

/// Filling in type references changes no node's core, nor the number of nodes.
proof fn lemma_fill_pass_cores(
    symbol_map: Map<Seq<char>, usize>,
    types: Map<Seq<char>, TypeInfo>,
    docs: Seq<DocumentSemantics>,
    nodes: Seq<NodeModel>,
    d: int,
)
    ensures
        fill_pass(symbol_map, types, docs, nodes, d).len() == nodes.len(),
        forall|i: int|
            0 <= i < nodes.len() ==> #[trigger] model_core(fill_pass(symbol_map, types, docs, nodes, d)[i])
                == model_core(nodes[i]),
    decreases d,
{
    if d > 0 {
        lemma_fill_pass_cores(symbol_map, types, docs, nodes, d - 1);
        lemma_fill_defs_cores(
            symbol_map,
            types,
            docs[d - 1],
            fill_pass(symbol_map, types, docs, nodes, d - 1),
            docs[d - 1].definitions@.len() as int,
        );
    }
}

proof fn lemma_refs_no_self_edges(
    symbol_map: Map<Seq<char>, usize>,
    encl: Map<Seq<char>, Seq<char>>,
    init: Map<Seq<char>, Seq<char>>,
    doc: DocumentSemantics,
    edges: Seq<(usize, usize, EdgeKind)>,
    j: int,
)
    requires
        no_self_edges(edges),
    ensures
        no_self_edges(refs_step(symbol_map, encl, init, doc, edges, j)),
    decreases j,
{
    if j > 0 {
        lemma_refs_no_self_edges(symbol_map, encl, init, doc, edges, j - 1);
        let prev = refs_step(symbol_map, encl, init, doc, edges, j - 1);
        let r = refs_step(symbol_map, encl, init, doc, edges, j);
        assert forall|e: int| 0 <= e < r.len() implies (#[trigger] r[e]).0 != r[e].1 by {
            if e < prev.len() {
                assert(r[e] == prev[e]);
            }
        }
    }
}

/// The reference pass never makes an edge from a node to itself.
pub proof fn law_pass2_no_self_edges(
    symbol_map: Map<Seq<char>, usize>,
    encl: Map<Seq<char>, Seq<char>>,
    init: Map<Seq<char>, Seq<char>>,
    docs: Seq<DocumentSemantics>,
    d: int,
)
    ensures
        no_self_edges(pass2(symbol_map, encl, init, docs, d)),
    decreases d,
{
    if d > 0 {
        law_pass2_no_self_edges(symbol_map, encl, init, docs, d - 1);
        lemma_refs_no_self_edges(
            symbol_map,
            encl,
            init,
            docs[d - 1],
            pass2(symbol_map, encl, init, docs, d - 1),
            docs[d - 1].references@.len() as int,
        );
    }
}

impl<S: SizeFunction, D: DocumentationScorer> GraphBuilder<S, D> {
    proof fn lemma_def_step_grows(
        &self,
        data: SemanticData,
        doc: DocumentSemantics,
        source: Seq<char>,
        def: SymbolDefinition,
        st: BuildState,
    )
        ensures
            self.def_step(data, doc, source, def, st).nodes.len() <= st.nodes.len() + 1,
    {
    }

    proof fn lemma_defs_step_ids(
        &self,
        data: SemanticData,
        sources: Seq<String>,
        d: int,
        st: BuildState,
        j: int,
    )
        requires
            ids_are_indices(st.nodes),
            self.defs_step(data, sources, d, st, j).nodes.len() <= u32::MAX,
        ensures
            ids_are_indices(self.defs_step(data, sources, d, st, j).nodes),
            st.nodes.len() <= self.defs_step(data, sources, d, st, j).nodes.len(),
        decreases j,
    {
        if j > 0 {
            let prev = self.defs_step(data, sources, d, st, j - 1);
            let def = data.documents@[d].definitions@[j - 1];
            assert(prev.nodes.len() <= self.def_step(data, data.documents@[d], sources[d]@, def, prev).nodes.len());
            self.lemma_defs_step_ids(data, sources, d, st, j - 1);
            let r = self.defs_step(data, sources, d, st, j);
            assert forall|i: int| 0 <= i < r.nodes.len() implies (#[trigger] model_core(r.nodes[i])).id == i by {
                if i < prev.nodes.len() {
                    assert(r.nodes[i] == prev.nodes[i]);
                }
            }
        }
    }

    /// Pass 1 numbers the nodes in order of creation: each node's id is its index.
    pub proof fn law_pass1_ids_are_indices(&self, data: SemanticData, sources: Seq<String>, d: int)
        requires
            self.pass1(data, sources, d).nodes.len() <= u32::MAX,
        ensures
            ids_are_indices(self.pass1(data, sources, d).nodes),
        decreases d,
    {
        if d > 0 {
            let prev = self.pass1(data, sources, d - 1);
            self.lemma_defs_step_len(data, sources, d - 1, prev, data.documents@[d - 1].definitions@.len() as int);
            self.law_pass1_ids_are_indices(data, sources, d - 1);
            self.lemma_defs_step_ids(data, sources, d - 1, prev, data.documents@[d - 1].definitions@.len() as int);
        }
    }

    proof fn lemma_defs_step_len(&self, data: SemanticData, sources: Seq<String>, d: int, st: BuildState, j: int)
        ensures
            st.nodes.len() <= self.defs_step(data, sources, d, st, j).nodes.len(),
        decreases j,
    {
        if j > 0 {
            self.lemma_defs_step_len(data, sources, d, st, j - 1);
        }
    }

    proof fn lemma_defs_step_dom(
        &self,
        data: SemanticData,
        sources: Seq<String>,
        d: int,
        st: BuildState,
        j: int,
        base: Seq<SymbolDefinition>,
    )
        requires
            0 <= d < data.documents@.len(),
            0 <= j <= data.documents@[d].definitions@.len(),
            st.symbol_map.dom() == crate::domain::semantic::node_symbols_of(base),
        ensures
            self.defs_step(data, sources, d, st, j).symbol_map.dom() == crate::domain::semantic::node_symbols_of(
                base + data.documents@[d].definitions@.take(j),
            ),
        decreases j,
    {
        let defs = data.documents@[d].definitions@;
        if j == 0 {
            assert(base + defs.take(0) =~= base);
        } else {
            self.lemma_defs_step_dom(data, sources, d, st, j - 1, base);
            assert((base + defs.take(j)).drop_last() =~= base + defs.take(j - 1));
            assert((base + defs.take(j)).last() == defs[j - 1]);
            crate::domain::semantic::law_kind_partition(defs[j - 1].kind);
        }
    }

    /// The symbols of pass 1's nodes are the symbols of the node definitions.
    proof fn lemma_pass1_dom(&self, data: SemanticData, sources: Seq<String>, d: int)
        requires
            0 <= d <= data.documents@.len(),
        ensures
            self.pass1(data, sources, d).symbol_map.dom() == crate::domain::semantic::node_symbols_of(
                crate::domain::semantic::doc_definitions(data.documents@.take(d)),
            ),
        decreases d,
    {
        let docs = data.documents@;
        if d == 0 {
            assert(docs.take(0) =~= Seq::<DocumentSemantics>::empty());
            assert(empty_build_state().symbol_map.dom() =~= Set::<Seq<char>>::empty());
        } else {
            self.lemma_pass1_dom(data, sources, d - 1);
            let defs = docs[d - 1].definitions@;
            self.lemma_defs_step_dom(
                data,
                sources,
                d - 1,
                self.pass1(data, sources, d - 1),
                defs.len() as int,
                crate::domain::semantic::doc_definitions(docs.take(d - 1)),
            );
            crate::domain::semantic::lemma_doc_definitions_prefix(docs, d - 1);
            assert(defs.take(defs.len() as int) =~= defs);
        }
    }

    /// Whether `build_checked` can run on these inputs: one source per document, fewer than
    /// `u32::MAX` definitions and references, every counted span accepted by the size
    /// function, and the resolution of every reference's symbols stopping within as many
    /// steps as there are definitions.
    pub fn can_build(&self, data: &SemanticData, sources: &Vec<String>) -> (r: bool)
        ensures
            r == (sources@.len() == data.documents@.len()
                && crate::domain::semantic::doc_definitions(data.documents@).len() < u32::MAX
                && crate::domain::semantic::doc_references(data.documents@).len() < u32::MAX
                && sizes_defined(*self, *data, sources@) && references_end_within(
                *data,
                crate::domain::semantic::doc_definitions(data.documents@).len(),
            )),
            r ==> references_resolve(*data),
    {
        let docs = &data.documents;
        if sources.len() != docs.len() {
            return false;
        }
        // Counts
        let mut n_defs: u64 = 0;
        let mut n_refs: u64 = 0;
        let mut d: usize = 0;
        while d < docs.len()
            invariant
                d <= docs@.len(),
                n_defs == crate::domain::semantic::doc_definitions(docs@.take(d as int)).len(),
                n_refs == crate::domain::semantic::doc_references(docs@.take(d as int)).len(),
                n_defs < u32::MAX,
                n_refs < u32::MAX,
                docs == &data.documents,
            decreases docs@.len() - d,
        {
            proof {
                crate::domain::semantic::lemma_doc_definitions_prefix(docs@, d as int);
            }
            let nd = docs[d].definitions.len() as u64;
            let nr = docs[d].references.len() as u64;
            if nd >= u32::MAX as u64 - n_defs || nr >= u32::MAX as u64 - n_refs {
                proof {
                    assert(crate::domain::semantic::doc_definitions(docs@.take(d as int + 1)).len() == n_defs + nd);
                    assert(crate::domain::semantic::doc_references(docs@.take(d as int + 1)).len() == n_refs + nr);
                    assert(!(crate::domain::semantic::doc_definitions(data.documents@).len() < u32::MAX
                        && crate::domain::semantic::doc_references(data.documents@).len() < u32::MAX));
                }
                return false;
            }
            n_defs = n_defs + nd;
            n_refs = n_refs + nr;
            d = d + 1;
        }
        proof {
            assert(docs@.take(d as int) =~= docs@);
        }
        // Sizes
        let mut d: usize = 0;
        while d < docs.len()
            invariant
                d <= docs@.len(),
                sources@.len() == docs@.len(),
                docs == &data.documents,
                forall|d2: int, j2: int|
                    0 <= d2 < d && 0 <= j2 < data.documents@[d2].definitions@.len() ==> {
                        let def = #[trigger] data.documents@[d2].definitions@[j2];
                        !spec_should_skip_kind(def.kind) ==> self.size_fn().accepts(
                            sources@[d2]@,
                            size_span(def, sources@[d2]@, is_interface_method_of(def, *data)),
                        )
                    },
            decreases docs@.len() - d,
        {
            let document = &docs[d];
            let source = &sources[d];
            let mut j: usize = 0;
            while j < document.definitions.len()
                invariant
                    j <= document.definitions@.len(),
                    d < docs@.len(),
                    sources@.len() == docs@.len(),
                    docs == &data.documents,
                    *document == data.documents@[d as int],
                    *source == sources@[d as int],
                    forall|d2: int, j2: int|
                        0 <= d2 < d && 0 <= j2 < data.documents@[d2].definitions@.len() ==> {
                            let def = #[trigger] data.documents@[d2].definitions@[j2];
                            !spec_should_skip_kind(def.kind) ==> self.size_fn().accepts(
                                sources@[d2]@,
                                size_span(def, sources@[d2]@, is_interface_method_of(def, *data)),
                            )
                        },
                    forall|j2: int|
                        0 <= j2 < j ==> {
                            let def = #[trigger] data.documents@[d as int].definitions@[j2];
                            !spec_should_skip_kind(def.kind) ==> self.size_fn().accepts(
                                sources@[d as int]@,
                                size_span(def, sources@[d as int]@, is_interface_method_of(def, *data)),
                            )
                        },
                decreases document.definitions@.len() - j,
            {
                let def = &document.definitions[j];
                assert(data.documents@[d as int].definitions@[j as int] == *def);
                if !should_skip_kind(&def.kind) {
                    let is_interface_method = match def.kind {
                        SymbolKind::Method | SymbolKind::Constructor => is_enclosed_by_abstract_type(
                            &def.enclosing_symbol,
                            data,
                        ),
                        _ => false,
                    };
                    assert(is_interface_method == is_interface_method_of(*def, *data));
                    let span = if is_interface_method {
                        extract_signature_span(&def.span, source.as_str())
                    } else {
                        convert_span_for_size(&def.span)
                    };
                    if !self.size_function.accepts_span(source.as_str(), &span) {
                        return false;
                    }
                }
                j = j + 1;
            }
            d = d + 1;
        }
        // Resolution of the references' symbols
        let ghost defs_all = crate::domain::semantic::doc_definitions(data.documents@);
        let mut node_set = vstd::hash_set::StringHashSet::new();
        let mut d: usize = 0;
        proof {
            assert(docs@.take(0) =~= Seq::<DocumentSemantics>::empty());
            assert(node_set@ =~= crate::domain::semantic::node_symbols_of(Seq::empty()));
        }
        while d < docs.len()
            invariant
                d <= docs@.len(),
                docs == &data.documents,
                node_set@ == crate::domain::semantic::node_symbols_of(
                    crate::domain::semantic::doc_definitions(docs@.take(d as int)),
                ),
            decreases docs@.len() - d,
        {
            let document = &docs[d];
            let ghost base = crate::domain::semantic::doc_definitions(docs@.take(d as int));
            proof {
                crate::domain::semantic::lemma_doc_definitions_prefix(docs@, d as int);
                assert(base + document.definitions@.take(0) =~= base);
            }
            let mut j: usize = 0;
            while j < document.definitions.len()
                invariant
                    j <= document.definitions@.len(),
                    node_set@ == crate::domain::semantic::node_symbols_of(
                        base + document.definitions@.take(j as int),
                    ),
                decreases document.definitions@.len() - j,
            {
                let def = &document.definitions[j];
                proof {
                    assert((base + document.definitions@.take(j as int + 1)).drop_last() =~= base
                        + document.definitions@.take(j as int));
                    assert((base + document.definitions@.take(j as int + 1)).last() == *def);
                }
                if is_node_kind(&def.kind) {
                    node_set.insert(def.symbol_id.clone());
                }
                j = j + 1;
            }
            proof {
                assert(document.definitions@.take(j as int) =~= document.definitions@);
            }
            d = d + 1;
        }
        proof {
            assert(docs@.take(d as int) =~= docs@);
        }
        let enclosing_map = crate::domain::semantic::build_enclosing_map(data);
        let fuel = n_defs as usize;
        let ghost encl = crate::domain::semantic::enclosing_map_of(defs_all);
        let ghost nodes = crate::domain::semantic::node_symbols_of(defs_all);
        let mut d: usize = 0;
        while d < docs.len()
            invariant
                d <= docs@.len(),
                docs == &data.documents,
                fuel == defs_all.len(),
                defs_all == crate::domain::semantic::doc_definitions(data.documents@),
                encl == crate::domain::semantic::symbol_map_view(enclosing_map@),
                encl == crate::domain::semantic::enclosing_map_of(defs_all),
                nodes == crate::domain::semantic::node_symbols_of(defs_all),
                node_set@ == nodes,
                forall|d2: int, j2: int|
                    0 <= d2 < d && 0 <= j2 < data.documents@[d2].references@.len() ==> {
                        let r = #[trigger] data.documents@[d2].references@[j2];
                        &&& crate::domain::semantic::resolve_within(nodes, encl, r.enclosing_symbol@, fuel as nat) is Some
                        &&& crate::domain::semantic::resolve_within(nodes, encl, r.target_symbol@, fuel as nat) is Some
                    },
            decreases docs@.len() - d,
        {
            let document = &docs[d];
            let mut j: usize = 0;
            while j < document.references.len()
                invariant
                    j <= document.references@.len(),
                    d < docs@.len(),
                    docs == &data.documents,
                    *document == data.documents@[d as int],
                    encl == crate::domain::semantic::symbol_map_view(enclosing_map@),
                    fuel == defs_all.len(),
                    defs_all == crate::domain::semantic::doc_definitions(data.documents@),
                    encl == crate::domain::semantic::enclosing_map_of(defs_all),
                    nodes == crate::domain::semantic::node_symbols_of(defs_all),
                    node_set@ == nodes,
                    forall|d2: int, j2: int|
                        0 <= d2 < d && 0 <= j2 < data.documents@[d2].references@.len() ==> {
                            let r = #[trigger] data.documents@[d2].references@[j2];
                            &&& crate::domain::semantic::resolve_within(nodes, encl, r.enclosing_symbol@, fuel as nat) is Some
                            &&& crate::domain::semantic::resolve_within(nodes, encl, r.target_symbol@, fuel as nat) is Some
                        },
                    forall|j2: int|
                        0 <= j2 < j ==> {
                            let r = #[trigger] data.documents@[d as int].references@[j2];
                            &&& crate::domain::semantic::resolve_within(nodes, encl, r.enclosing_symbol@, fuel as nat) is Some
                            &&& crate::domain::semantic::resolve_within(nodes, encl, r.target_symbol@, fuel as nat) is Some
                        },
                decreases document.references@.len() - j,
            {
                let reference = &document.references[j];
                assert(data.documents@[d as int].references@[j as int] == *reference);
                if !crate::domain::semantic::resolves_within(
                    reference.enclosing_symbol.as_str(),
                    &node_set,
                    &enclosing_map,
                    fuel,
                ) || !crate::domain::semantic::resolves_within(
                    reference.target_symbol.as_str(),
                    &node_set,
                    &enclosing_map,
                    fuel,
                ) {
                    return false;
                }
                j = j + 1;
            }
            d = d + 1;
        }
        proof {
            lemma_references_end(*data, fuel as nat);
        }
        true
    }

    /// Build the context graph from semantic data, given the source text of each document
    /// (`sources[i]` for `semantic_data.documents[i]`), in three passes:
    /// 1. nodes for functions and variables, registry entries for types;
    /// 2. call, read and write edges from the references;
    /// 3. registered return and variable types filled into the nodes.
    /// The graph `build` makes: pass 1's nodes with pass 2.5's types filled in, pass 2's
    /// edges followed by pass 3's (see `dynamic_edges`), pass 1's symbols and types.
    pub open spec fn builds(&self, data: SemanticData, sources: Seq<String>, r: ContextGraph) -> bool {
        let docs = data.documents@;
        let n = docs.len() as int;
        let p1 = self.pass1(data, sources, n);
        let encl = crate::domain::semantic::enclosing_map_of(crate::domain::semantic::doc_definitions(docs));
        let init = init_map_of(crate::domain::semantic::doc_definitions(docs), p1.types, p1.symbol_map.dom());
        &&& r.wf()
        &&& crate::domain::node::node_models(r.nodes()) == fill_pass(p1.symbol_map, p1.types, docs, p1.nodes, n)
        &&& r.edges() == pass2(p1.symbol_map, encl, init, docs, n) + self.pass3(data, sources)
        &&& r.symbol_map() == p1.symbol_map
        &&& r.types() == p1.types
        &&& forall|i: int| 0 <= i < p1.symbols.len() ==> #[trigger] r.symbol_of(i) == p1.symbols[i]
        &&& forall|i: int| 0 <= i < r.nodes().len() ==> (#[trigger] r.nodes()[i]).spec_core().id == i
        &&& forall|e: int| 0 <= e < r.edges().len() ==> (#[trigger] r.edges()[e]).0 != r.edges()[e].1
    }

    /// The edges of pass 3 for these inputs (see `dynamic_edges`).
    pub open spec fn pass3(&self, data: SemanticData, sources: Seq<String>) -> Seq<(usize, usize, EdgeKind)> {
        let docs = data.documents@;
        let n = docs.len() as int;
        let p1 = self.pass1(data, sources, n);
        let encl = crate::domain::semantic::enclosing_map_of(crate::domain::semantic::doc_definitions(docs));
        let init = init_map_of(crate::domain::semantic::doc_definitions(docs), p1.types, p1.symbol_map.dom());
        dynamic_edges(
            crate::domain::semantic::doc_definitions(docs),
            p1.symbols,
            p1.symbol_map,
            fill_pass(p1.symbol_map, p1.types, docs, p1.nodes, n),
            records_of(p1.symbol_map, encl, init, crate::domain::semantic::doc_references(docs)),
        )
    }

    /// The number of edges `build` makes.
    pub open spec fn edge_total(&self, data: SemanticData, sources: Seq<String>) -> int {
        let docs = data.documents@;
        let n = docs.len() as int;
        let p1 = self.pass1(data, sources, n);
        let encl = crate::domain::semantic::enclosing_map_of(crate::domain::semantic::doc_definitions(docs));
        let init = init_map_of(crate::domain::semantic::doc_definitions(docs), p1.types, p1.symbol_map.dom());
        (pass2(p1.symbol_map, encl, init, docs, n).len() + self.pass3(data, sources).len()) as int
    }

    /// Build the context graph from semantic data and the documents' sources.
    pub fn build(&self, semantic_data: SemanticData, sources: &Vec<String>) -> (r: ContextGraph)
        requires
            sources@.len() == semantic_data.documents@.len(),
            crate::domain::semantic::doc_definitions(semantic_data.documents@).len() < u32::MAX,
            crate::domain::semantic::doc_references(semantic_data.documents@).len() < u32::MAX,
            sizes_defined(*self, semantic_data, sources@),
            references_resolve(semantic_data),
            self.edge_total(semantic_data, sources@) <= u32::MAX,
        ensures
            self.builds(semantic_data, sources@, r),
    {
        self.build_checked(semantic_data, sources).unwrap()
    }

    /// Build the context graph as `build` does, or `None` when it would hold more than
    /// `u32::MAX` edges.
    pub fn build_checked(&self, semantic_data: SemanticData, sources: &Vec<String>) -> (r: Option<ContextGraph>)
        requires
            sources@.len() == semantic_data.documents@.len(),
            crate::domain::semantic::doc_definitions(semantic_data.documents@).len() < u32::MAX,
            crate::domain::semantic::doc_references(semantic_data.documents@).len() < u32::MAX,
            sizes_defined(*self, semantic_data, sources@),
            references_resolve(semantic_data),
        ensures
            r is None <==> self.edge_total(semantic_data, sources@) > u32::MAX,
            r matches Some(g) ==> self.builds(semantic_data, sources@, g),
    {
        let data = &semantic_data;
        let ghost docs = data.documents@;
        let mut graph = ContextGraph::new();
        let mut registry = crate::domain::type_registry::TypeRegistry::new();
        let mut node_symbols = vstd::hash_set::StringHashSet::new();
        // Pre-compute enclosing map for symbol resolution
        let enclosing_map = crate::domain::semantic::build_enclosing_map(data);
        proof {
            assert(node_symbols@ =~= empty_build_state().symbol_map.dom());
            assert(crate::domain::node::node_models(graph.nodes()) =~= Seq::<NodeModel>::empty());
        }
        // Pass 1: node allocation and type registration
        let mut d: usize = 0;
        while d < data.documents.len()
            invariant
                d <= docs.len(),
                docs == data.documents@,
                sources@.len() == docs.len(),
                crate::domain::semantic::doc_definitions(docs).len() < u32::MAX,
                sizes_defined(*self, *data, sources@),
                pass1_holds(graph, registry, node_symbols, self.pass1(*data, sources@, d as int)),
                self.pass1(*data, sources@, d as int).nodes.len() <= crate::domain::semantic::doc_definitions(
                    docs.take(d as int),
                ).len(),
            decreases docs.len() - d,
        {
            let document = &data.documents[d];
            let source = &sources[d];
            let ghost st0 = self.pass1(*data, sources@, d as int);
            proof {
                crate::domain::semantic::lemma_doc_definitions_prefix(docs, d as int);
            }
            let mut j: usize = 0;
            while j < document.definitions.len()
                invariant
                    j <= document.definitions@.len(),
                    d < docs.len(),
                    docs == data.documents@,
                    *document == docs[d as int],
                    *source == sources@[d as int],
                    sizes_defined(*self, *data, sources@),
                    pass1_holds(graph, registry, node_symbols, self.defs_step(*data, sources@, d as int, st0, j as int)),
                    self.defs_step(*data, sources@, d as int, st0, j as int).nodes.len() <= crate::domain::semantic::doc_definitions(
                        docs.take(d as int),
                    ).len() + j,
                    crate::domain::semantic::doc_definitions(docs.take(d as int)).len()
                        + document.definitions@.len() < u32::MAX,
                decreases document.definitions@.len() - j,
            {
                let def = &document.definitions[j];
                let ghost st = self.defs_step(*data, sources@, d as int, st0, j as int);
                proof {
                    assert(docs[d as int].definitions@[j as int] == *def);
                    self.lemma_def_step_grows(*data, *document, source@, *def, st);
                }
                self.add_definition(
                    &mut graph,
                    &mut registry,
                    &mut node_symbols,
                    data,
                    document,
                    source,
                    def,
                    Ghost(st),
                );
                j = j + 1;
            }
            d = d + 1;
        }
        let ghost p1 = self.pass1(*data, sources@, docs.len() as int);
        proof {
            assert(docs.take(d as int) =~= docs);
        }
        // Pass 2: edge wiring from the references
        let ghost encl = crate::domain::semantic::symbol_map_view(enclosing_map@);
        proof {
            self.lemma_pass1_dom(*data, sources@, docs.len() as int);
        }
        let init_map = build_init_map(data, &registry, &node_symbols);
        let ghost init = crate::domain::semantic::symbol_map_view(init_map@);
        let mut records: Vec<(Option<(usize, usize, EdgeKind)>, String)> = Vec::new();
        proof {
            assert(records_view(records@) =~= records_of(p1.symbol_map, encl, init, crate::domain::semantic::doc_references(docs.take(0))));
        }
        let mut d: usize = 0;
        while d < data.documents.len()
            invariant
                p1.symbol_map.dom() == crate::domain::semantic::node_symbols_of(
                    crate::domain::semantic::doc_definitions(docs),
                ),
                d <= docs.len(),
                docs == data.documents@,
                encl == crate::domain::semantic::symbol_map_view(enclosing_map@),
                encl == crate::domain::semantic::enclosing_map_of(crate::domain::semantic::doc_definitions(docs)),
                crate::domain::semantic::doc_references(docs).len() < u32::MAX,
                references_resolve(*data),
                graph.wf(),
                crate::domain::node::node_models(graph.nodes()) == p1.nodes,
                graph.symbol_map() == p1.symbol_map,
                forall|i: int| 0 <= i < p1.symbols.len() ==> #[trigger] graph.symbol_of(i) == p1.symbols[i],
                registry@ == p1.types,
                node_symbols@ == p1.symbol_map.dom(),
                graph.edges() == pass2(p1.symbol_map, encl, init, docs, d as int),
                init == crate::domain::semantic::symbol_map_view(init_map@),
                init == init_map_of(crate::domain::semantic::doc_definitions(docs), p1.types, p1.symbol_map.dom()),
                records_view(records@) == records_of(p1.symbol_map, encl, init, crate::domain::semantic::doc_references(docs.take(d as int))),
                forall|q: int| 0 <= q < records@.len() ==> record_in_graph(#[trigger] records@[q], p1.nodes.len()),
                p1.nodes.len() == graph.nodes().len(),
                graph.edges().len() <= crate::domain::semantic::doc_references(docs.take(d as int)).len(),
            decreases docs.len() - d,
        {
            let document = &data.documents[d];
            let ghost e0 = pass2(p1.symbol_map, encl, init, docs, d as int);
            let ghost r0 = crate::domain::semantic::doc_references(docs.take(d as int));
            proof {
                assert(r0 + document.references@.take(0) =~= r0);
            }
            proof {
                crate::domain::semantic::lemma_doc_definitions_prefix(docs, d as int);
            }
            let mut j: usize = 0;
            while j < document.references.len()
                invariant
                    j <= document.references@.len(),
                    d < docs.len(),
                    docs == data.documents@,
                    *document == docs[d as int],
                    encl == crate::domain::semantic::symbol_map_view(enclosing_map@),
                    encl == crate::domain::semantic::enclosing_map_of(crate::domain::semantic::doc_definitions(docs)),
                    references_resolve(*data),
                    graph.wf(),
                    crate::domain::node::node_models(graph.nodes()) == p1.nodes,
                    graph.symbol_map() == p1.symbol_map,
                    forall|i: int| 0 <= i < p1.symbols.len() ==> #[trigger] graph.symbol_of(i) == p1.symbols[i],
                    node_symbols@ == p1.symbol_map.dom(),
                    graph.edges() == refs_step(p1.symbol_map, encl, init, *document, e0, j as int),
                    init == crate::domain::semantic::symbol_map_view(init_map@),
                    records_view(records@) == records_of(p1.symbol_map, encl, init, r0 + document.references@.take(j as int)),
                    forall|q: int| 0 <= q < records@.len() ==> record_in_graph(#[trigger] records@[q], p1.nodes.len()),
                    p1.nodes.len() == graph.nodes().len(),
                    p1.symbol_map.dom() == crate::domain::semantic::node_symbols_of(
                        crate::domain::semantic::doc_definitions(docs),
                    ),
                    graph.edges().len() <= crate::domain::semantic::doc_references(docs.take(d as int)).len() + j,
                    crate::domain::semantic::doc_references(docs.take(d as int)).len()
                        + document.references@.len() < u32::MAX,
                decreases document.references@.len() - j,
            {
                let reference = &document.references[j];
                proof {
                    assert(docs[d as int].references@[j as int] == *reference);
                }
                let added = add_reference(&mut graph, &node_symbols, &enclosing_map, &init_map, reference);
                proof {
                    graph.lemma_wf_edges();
                    if added is Some {
                        assert(graph.edges()[graph.edges().len() - 1] == added->0);
                    }
                }
                let ghost rv0 = records@;
                records.push((added, reference.target_symbol.clone()));
                proof {
                    let rr = r0 + document.references@.take(j as int + 1);
                    assert(rr =~= (r0 + document.references@.take(j as int)).push(*reference));
                    assert(records_view(records@) =~= records_view(rv0).push((added, reference.target_symbol@)));
                    assert(records_of(p1.symbol_map, encl, init, rr) =~= records_of(
                        p1.symbol_map,
                        encl,
                        init,
                        r0 + document.references@.take(j as int),
                    ).push((added, reference.target_symbol@)));
                    assert forall|q: int| 0 <= q < records@.len() implies record_in_graph(#[trigger] records@[q], p1.nodes.len()) by {
                        if q < rv0.len() {
                            assert(records@[q] == rv0[q]);
                        } else {
                            assert(records@[q].0 == added);
                            if added is Some {
                                let last = graph.edges().len() - 1;
                                assert(graph.edges()[last].0 < graph.nodes().len() && graph.edges()[last].1 < graph.nodes().len());
                            }
                        }
                    }
                }
                j = j + 1;
            }
            proof {
                assert(document.references@.take(j as int) =~= document.references@);
                crate::domain::semantic::lemma_doc_definitions_prefix(docs, d as int);
            }
            d = d + 1;
        }
        proof {
            assert(docs.take(d as int) =~= docs);
        }
        // Pass 2.5: fill in registered type references from the symbol details
        let ghost filled0 = p1.nodes;
        let mut d: usize = 0;
        while d < data.documents.len()
            invariant
                d <= docs.len(),
                docs == data.documents@,
                graph.wf(),
                crate::domain::node::node_models(graph.nodes()) == fill_pass(
                    p1.symbol_map,
                    p1.types,
                    docs,
                    p1.nodes,
                    d as int,
                ),
                graph.symbol_map() == p1.symbol_map,
                forall|i: int| 0 <= i < p1.symbols.len() ==> #[trigger] graph.symbol_of(i) == p1.symbols[i],
                registry@ == p1.types,
                graph.edges() == pass2(p1.symbol_map, encl, init, docs, docs.len() as int),
                init == init_map_of(crate::domain::semantic::doc_definitions(docs), p1.types, p1.symbol_map.dom()),
            decreases docs.len() - d,
        {
            let document = &data.documents[d];
            let ghost n0 = fill_pass(p1.symbol_map, p1.types, docs, p1.nodes, d as int);
            let mut j: usize = 0;
            while j < document.definitions.len()
                invariant
                    j <= document.definitions@.len(),
                    d < docs.len(),
                    docs == data.documents@,
                    *document == docs[d as int],
                    graph.wf(),
                    crate::domain::node::node_models(graph.nodes()) == fill_defs_step(
                        p1.symbol_map,
                        p1.types,
                        *document,
                        n0,
                        j as int,
                    ),
                    graph.symbol_map() == p1.symbol_map,
                    forall|i: int| 0 <= i < p1.symbols.len() ==> #[trigger] graph.symbol_of(i) == p1.symbols[i],
                    registry@ == p1.types,
                    graph.edges() == pass2(p1.symbol_map, encl, init, docs, docs.len() as int),
                decreases document.definitions@.len() - j,
            {
                let def = &document.definitions[j];
                proof {
                    assert(docs[d as int].definitions@[j as int] == *def);
                }
                fill_definition(&mut graph, &registry, def);
                j = j + 1;
            }
            d = d + 1;
        }
        proof {
            let n = docs.len() as int;
            graph.lemma_wf_node_bound();
            lemma_fill_pass_cores(p1.symbol_map, p1.types, docs, p1.nodes, n);
            self.law_pass1_ids_are_indices(*data, sources@, n);
            law_pass2_no_self_edges(p1.symbol_map, encl, init, docs, n);
            let nm = crate::domain::node::node_models(graph.nodes());
            assert forall|i: int| 0 <= i < graph.nodes().len() implies (#[trigger] graph.nodes()[i]).spec_core().id == i by {
                assert(nm[i] == graph.nodes()[i].model());
                assert(model_core(nm[i]) == model_core(p1.nodes[i]));
            }
        }
        // Pass 3: dynamic expansion edges
        let all = crate::domain::semantic::collect_all_definitions(data);
        let n_defs = all.len() - data.external_symbols.len();
        let ghost defs = crate::domain::semantic::doc_definitions(docs);
        proof {
            assert forall|i: int| 0 <= i < n_defs implies *(#[trigger] all@[i]) == defs[i] by {
                assert(crate::domain::semantic::all_definitions(*data)[i] == defs[i]);
            }
            assert(Seq::new(graph.nodes().len(), |i: int| graph.symbol_of(i)) =~= p1.symbols);
            assert(records_view(records@) == records_of(p1.symbol_map, encl, init, crate::domain::semantic::doc_references(docs)));
        }
        let ghost g2 = graph;
        if !add_dynamic_edges(&mut graph, &all, n_defs, &records, Ghost(defs)) {
            return None;
        }
        proof {
            lemma_dynamic_no_self_edges(defs, p1.symbols, p1.symbol_map, crate::domain::node::node_models(g2.nodes()), records_view(records@));
            assert forall|e: int| 0 <= e < graph.edges().len() implies (#[trigger] graph.edges()[e]).0 != graph.edges()[e].1 by {
                let pe = g2.edges();
                if e < pe.len() {
                    assert(graph.edges()[e] == pe[e]);
                } else {
                    assert(graph.edges()[e] == self.pass3(*data, sources@)[e - pe.len()]);
                }
            }
        }
        graph.set_type_registry(registry);
        Some(graph)
    }
}

} // verus!
