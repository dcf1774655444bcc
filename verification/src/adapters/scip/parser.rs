//! SCIP protocol parsing utilities: ranges and parameter symbols.
use crate::text::{byte_len, char_index_at_byte, lemma_char_index_of_prefix, slice_chars, str_chars, string_from_chars};
use vstd::prelude::*;

verus! {

// -----------------------------------------------------------------------------
// Ranges
// -----------------------------------------------------------------------------

/// A SCIP range as (start line, start char, end line, end char): three numbers give a
/// single-line range, four a multi-line one; anything else is all zeros.
pub open spec fn spec_parse_range(range: Seq<i32>) -> (i32, i32, i32, i32) {
    if range.len() == 3 {
        (range[0], range[1], range[0], range[2])
    } else if range.len() == 4 {
        (range[0], range[1], range[2], range[3])
    } else {
        (0, 0, 0, 0)
    }
}

/// Parse SCIP range to (start line, start char, end line, end char)
pub fn parse_range(range: &[i32]) -> (r: (i32, i32, i32, i32))
    ensures
        r == spec_parse_range(range@),
{
    if range.len() == 3 {
        (range[0], range[1], range[0], range[2])
    } else if range.len() == 4 {
        (range[0], range[1], range[2], range[3])
    } else {
        (0, 0, 0, 0)
    }
}

/// `outer` starts at or before `inner` and ends at or after it.
pub open spec fn spec_encloses(outer: Seq<i32>, inner: Seq<i32>) -> bool {
    let o = spec_parse_range(outer);
    let i = spec_parse_range(inner);
    (o.0 < i.0 || (o.0 == i.0 && o.1 <= i.1)) && (o.2 > i.2 || (o.2 == i.2 && o.3 >= i.3))
}

/// Check if inner range is enclosed by outer range
pub fn encloses(outer: &[i32], inner: &[i32]) -> (r: bool)
    ensures
        r == spec_encloses(outer@, inner@),
{
    let (o_start_line, o_start_char, o_end_line, o_end_char) = parse_range(outer);
    let (i_start_line, i_start_char, i_end_line, i_end_char) = parse_range(inner);
    (o_start_line < i_start_line || (o_start_line == i_start_line && o_start_char <= i_start_char))
        && (o_end_line > i_end_line || (o_end_line == i_end_line && o_end_char >= i_end_char))
}

/// Enclosing relation is reflexive: every range encloses itself.
pub proof fn law_encloses_reflexive(r: Seq<i32>)
    ensures
        spec_encloses(r, r),
{
}

/// Enclosing relation is transitive.
pub proof fn law_encloses_transitive(a: Seq<i32>, b: Seq<i32>, c: Seq<i32>)
    requires
        spec_encloses(a, b),
        spec_encloses(b, c),
    ensures
        spec_encloses(a, c),
{
}

/// The ranges of a list of definitions.
pub open spec fn def_ranges<'a>(defs: Seq<(Vec<i32>, &'a str)>) -> Seq<Seq<i32>> {
    defs.map_values(|d: (Vec<i32>, &'a str)| d.0@)
}

/// The definition range chosen among the first `n` ranges: the first that encloses the
/// reference, replaced by each later one that encloses it and lies within the current choice.
pub open spec fn enclosing_choice(ref_range: Seq<i32>, ranges: Seq<Seq<i32>>, n: int) -> Option<int>
    decreases n,
{
    if n <= 0 {
        None
    } else {
        let prev = enclosing_choice(ref_range, ranges, n - 1);
        let d = ranges[n - 1];
        if spec_encloses(d, ref_range) {
            match prev {
                Some(p) => if spec_encloses(ranges[p], d) {
                    Some(n - 1)
                } else {
                    prev
                },
                None => Some(n - 1),
            }
        } else {
            prev
        }
    }
}

pub proof fn lemma_enclosing_choice_bounds(ref_range: Seq<i32>, ranges: Seq<Seq<i32>>, n: int)
    requires
        n <= ranges.len(),
    ensures
        enclosing_choice(ref_range, ranges, n) matches Some(i) ==> 0 <= i < n && spec_encloses(
            ranges[i],
            ref_range,
        ),
    decreases n,
{
    if n > 0 {
        lemma_enclosing_choice_bounds(ref_range, ranges, n - 1);
    }
}

/// Find the smallest enclosing definition for a reference range
pub fn find_enclosing_definition<'a>(ref_range: &[i32], defs: &[(Vec<i32>, &'a str)]) -> (r: Option<&'a str>)
    ensures
        match enclosing_choice(ref_range@, def_ranges(defs@), defs@.len() as int) {
            Some(i) => r == Some(defs@[i].1),
            None => r is None,
        },
{
    let mut best: Option<usize> = None;
    let mut i: usize = 0;
    while i < defs.len()
        invariant
            i <= defs@.len(),
            match best {
                Some(b) => enclosing_choice(ref_range@, def_ranges(defs@), i as int) == Some(b as int) && b < i,
                None => enclosing_choice(ref_range@, def_ranges(defs@), i as int) is None,
            },
        decreases defs@.len() - i,
    {
        let def_range = &defs[i].0;
        if encloses(def_range.as_slice(), ref_range) {
            match best {
                Some(b) => {
                    // We want the smallest enclosing range
                    if encloses(defs[b].0.as_slice(), def_range.as_slice()) {
                        best = Some(i);
                    }
                },
                None => {
                    best = Some(i);
                },
            }
        }
        i = i + 1;
    }
    match best {
        Some(b) => Some(defs[b].1),
        None => None,
    }
}

// -----------------------------------------------------------------------------
// Parameter symbols
// -----------------------------------------------------------------------------

/// The pattern `\.\(([^)]*)\)$` matches `s` from position `i`: a `.(`, then no `)`, then a
/// final `)` that ends the text.
pub open spec fn param_suffix_at(s: Seq<char>, i: int) -> bool {
    &&& 0 <= i
    &&& i + 3 <= s.len()
    &&& s[i] == '.'
    &&& s[i + 1] == '('
    &&& s[s.len() - 1] == ')'
    &&& forall|k: int| i + 2 <= k < s.len() - 1 ==> #[trigger] s[k] != ')'
}

/// The leftmost match start of the pattern in `s`, looking from position `i` on.
pub open spec fn param_suffix_from(s: Seq<char>, i: int) -> Option<int>
    decreases s.len() - i,
{
    if i < 0 || i >= s.len() {
        None
    } else if param_suffix_at(s, i) {
        Some(i)
    } else {
        param_suffix_from(s, i + 1)
    }
}

pub proof fn lemma_param_suffix_bounds(s: Seq<char>, i: int)
    requires
        i >= 0,
    ensures
        param_suffix_from(s, i) matches Some(k) ==> i <= k && param_suffix_at(s, k),
    decreases s.len() - i,
{
    if i < s.len() && !param_suffix_at(s, i) {
        lemma_param_suffix_bounds(s, i + 1);
    }
}

/// `Regex::new(r"\.\(([^)]*)\)$")` then `Regex::captures`: the leftmost-first match of the
/// parameter-suffix pattern, given as byte offsets (match start, start and end of the captured
/// name); `None` when the pattern does not match. The pattern is valid, so compiling it does
/// not fail.
#[verifier::external_body]
fn regex_param_suffix(symbol: &str) -> (r: Option<(usize, usize, usize)>)
    ensures
        match r {
            Some((m0, g0, g1)) => param_suffix_from(symbol@, 0) matches Some(i) && m0 == byte_len(
                symbol@.take(i),
            ) && g0 == byte_len(symbol@.take(i + 2)) && g1 == byte_len(
                symbol@.take(symbol@.len() - 1),
            ),
            None => param_suffix_from(symbol@, 0) is None,
        },
{
    let re = regex::Regex::new(r"\.\(([^)]*)\)$").expect("parameter suffix regex");
    match re.captures(symbol) {
        Some(caps) => match (caps.get(0), caps.get(1)) {
            (Some(m), Some(name)) => Some((m.start(), name.start(), name.end())),
            _ => None,
        },
        None => None,
    }
}

/// The function symbol of a parameter symbol `<function>.(name)`: the text up to and
/// including the `.` of the final `.(name)`.
pub open spec fn spec_parent_function(symbol: Seq<char>) -> Option<Seq<char>> {
    match param_suffix_from(symbol, 0) {
        Some(i) => Some(symbol.take(i + 1)),
        None => None,
    }
}

/// The parameter name of a parameter symbol: the text inside the final `.(...)`.
pub open spec fn spec_parameter_name(symbol: Seq<char>) -> Option<Seq<char>> {
    match param_suffix_from(symbol, 0) {
        Some(i) => Some(symbol.subrange(i + 2, symbol.len() - 1)),
        None => None,
    }
}

/// Char positions of the match, from its byte offsets.
fn param_suffix_positions(symbol: &str, chars: &Vec<char>) -> (r: Option<(usize, usize)>)
    requires
        chars@ == symbol@,
    ensures
        match r {
            Some((i, e)) => param_suffix_from(symbol@, 0) == Some(i as int) && e == symbol@.len() - 1,
            None => param_suffix_from(symbol@, 0) is None,
        },
{
    match regex_param_suffix(symbol) {
        Some((m0, _g0, g1)) => {
            let ghost i = param_suffix_from(symbol@, 0)->0;
            proof {
                lemma_param_suffix_bounds(symbol@, 0);
                lemma_char_index_of_prefix(symbol@, i);
                lemma_char_index_of_prefix(symbol@, symbol@.len() - 1);
            }
            let a = char_index_at_byte(chars.as_slice(), m0 as u128);
            let b = char_index_at_byte(chars.as_slice(), g1 as u128);
            match (a, b) {
                (Some(a), Some(b)) => Some((a, b)),
                _ => None,
            }
        },
        None => None,
    }
}

/// Extract the parent function/method symbol from a parameter symbol: in SCIP a parameter is
/// the function symbol followed by `.(param_name)`, so the trailing `(name)` is stripped.
pub fn parent_function_from_parameter_symbol(symbol: &str) -> (r: Option<String>)
    ensures
        match r {
            Some(x) => spec_parent_function(symbol@) == Some(x@),
            None => spec_parent_function(symbol@) is None,
        },
{
    let chars = str_chars(symbol);
    match param_suffix_positions(symbol, &chars) {
        Some((i, _e)) => {
            proof {
                lemma_param_suffix_bounds(symbol@, 0);
            }
            // Include the '.' so the parent is the full function symbol
            let parent = slice_chars(chars.as_slice(), 0, i + 1);
            assert(parent@ =~= symbol@.take(i + 1));
            Some(string_from_chars(parent.as_slice()))
        },
        None => None,
    }
}

/// Extract the parameter name from a parameter symbol (the part inside the last `.(...)`).
pub fn parameter_name_from_symbol(symbol: &str) -> (r: Option<String>)
    ensures
        match r {
            Some(x) => spec_parameter_name(symbol@) == Some(x@),
            None => spec_parameter_name(symbol@) is None,
        },
{
    let chars = str_chars(symbol);
    match param_suffix_positions(symbol, &chars) {
        Some((i, e)) => {
            proof {
                lemma_param_suffix_bounds(symbol@, 0);
            }
            let name = slice_chars(chars.as_slice(), i + 2, e);
            Some(string_from_chars(name.as_slice()))
        },
        None => None,
    }
}

proof fn lemma_param_suffix_from(s: Seq<char>, i: int)
    ensures
        param_suffix_from(s, i) matches Some(k) ==> param_suffix_at(s, k),
    decreases s.len() - i,
{
    if !(i < 0 || i >= s.len()) && !param_suffix_at(s, i) {
        lemma_param_suffix_from(s, i + 1);
    }
}

/// A parameter symbol splits into its function and its name: `parent_function_from_parameter_symbol`
/// and `parameter_name_from_symbol` succeed on the same symbols, and then the symbol is the
/// function (ending in `.`), an opening parenthesis, the name and a closing parenthesis.
pub proof fn law_parameter_symbol_splits(symbol: Seq<char>)
    ensures
        spec_parent_function(symbol) is Some <==> spec_parameter_name(symbol) is Some,
        spec_parent_function(symbol) matches Some(p) ==> {
            let n = spec_parameter_name(symbol)->0;
            &&& p.len() > 0
            &&& p.last() == '.'
            &&& p + seq!['('] + n + seq![')'] == symbol
        },
{
    lemma_param_suffix_from(symbol, 0);
    if let Some(i) = param_suffix_from(symbol, 0) {
        let p = symbol.take(i + 1);
        let n = symbol.subrange(i + 2, symbol.len() - 1);
        assert(p + seq!['('] + n + seq![')'] =~= symbol);
    }
}

} // verus!
