//! Heuristic documentation scorer: length, keywords, and coverage of parameters and return
//! values.
use crate::domain::node::DocScore;
use crate::domain::policy::{
    opt_str_view, signature_readable, signature_readable_to_last, DocumentationScorer, NodeInfo,
    NodeInfoModel,
};
use crate::text::{
    char_is_alphanumeric, chars_eq, contains, count_words, deep_chars, find_char, find_first,
    has_substring, is_alphanumeric_char, lowercase, rfind_char, rfind_char_spec, slice_chars,
    split_char, split_char_spec, str_chars, str_to_lowercase, string_from_chars, trim, trim_spec,
    words_spec,
};
use vstd::prelude::*;

verus! {

// -----------------------------------------------------------------------------
// Specification
// -----------------------------------------------------------------------------

/// The language families with their own signature reading.
#[derive(Debug, Clone, Copy, PartialEq, Eq, Structural)]
pub enum SignatureLanguage {
    Generic,
    Rust,
    Python,
}

/// The signatures that a language family's reading can cut (see `signature_readable_in`).
pub open spec fn readable_for(lang: SignatureLanguage, sig: Seq<char>) -> bool {
    match lang {
        SignatureLanguage::Rust => signature_readable(sig),
        SignatureLanguage::Python => signature_readable_to_last(sig),
        SignatureLanguage::Generic => true,
    }
}

pub open spec fn language_of(language: Option<Seq<char>>) -> SignatureLanguage {
    match language {
        Some(l) => if l == seq!['r', 's'] || l == seq!['r', 'u', 's', 't'] {
            SignatureLanguage::Rust
        } else if l == seq!['p', 'y'] || l == seq!['p', 'y', 't', 'h', 'o', 'n'] {
            SignatureLanguage::Python
        } else {
            SignatureLanguage::Generic
        },
        None => SignatureLanguage::Generic,
    }
}

/// The text before the first `c` (all of `s` without one): `s.split(c).next()`.
pub open spec fn first_piece(s: Seq<char>, c: char) -> Seq<char> {
    match find_first(s, seq![c]) {
        Some(i) => s.take(i),
        None => s,
    }
}

/// `s` without its leading `*` characters.
pub open spec fn strip_leading_stars(s: Seq<char>) -> Seq<char>
    decreases s.len(),
{
    if s.len() > 0 && s[0] == '*' {
        strip_leading_stars(s.drop_first())
    } else {
        s
    }
}

pub open spec fn rust_param_name(p: Seq<char>) -> Seq<char> {
    trim_spec(first_piece(p, ':'))
}

pub open spec fn rust_param_kept(n: Seq<char>) -> bool {
    n.len() > 0 && n != seq!['s', 'e', 'l', 'f'] && n != seq!['&', 's', 'e', 'l', 'f'] && n != seq![
        '&',
        'm',
        'u',
        't',
        ' ',
        's',
        'e',
        'l',
        'f',
    ]
}

pub open spec fn python_param_name(p: Seq<char>) -> Seq<char> {
    strip_leading_stars(trim_spec(first_piece(first_piece(p, ':'), '=')))
}

pub open spec fn python_param_kept(n: Seq<char>) -> bool {
    n.len() > 0 && n != seq!['s', 'e', 'l', 'f'] && n != seq!['c', 'l', 's']
}

/// The parameter names read from the comma-separated pieces.
pub open spec fn param_names(lang: SignatureLanguage, pieces: Seq<Seq<char>>) -> Seq<Seq<char>>
    decreases pieces.len(),
{
    if pieces.len() == 0 {
        Seq::empty()
    } else {
        let rest = param_names(lang, pieces.drop_last());
        let p = pieces.last();
        if lang == SignatureLanguage::Rust {
            if rust_param_kept(rust_param_name(p)) {
                rest.push(rust_param_name(p))
            } else {
                rest
            }
        } else {
            if python_param_kept(python_param_name(p)) {
                rest.push(python_param_name(p))
            } else {
                rest
            }
        }
    }
}

/// The parameter names of a signature: the pieces between the first `(` and the first `)`
/// (Rust) or the last `)` (Python), split at commas.
pub open spec fn extract_params_spec(lang: SignatureLanguage, sig: Seq<char>) -> Seq<Seq<char>> {
    let open = find_first(sig, seq!['(']);
    let close = if lang == SignatureLanguage::Python {
        rfind_char_spec(sig, ')')
    } else {
        find_first(sig, seq![')'])
    };
    if lang == SignatureLanguage::Generic || open is None || close is None {
        Seq::empty()
    } else {
        param_names(lang, split_char_spec(sig.subrange(open->0 + 1, close->0), ','))
    }
}

/// What the parameter names of comma-separated pieces are, for each language: the receiver
/// (`self`, `&self`, `&mut self` in Rust; `self` and `cls` in Python) and empty names are
/// never parameters; every other named piece gives its parameter; and nothing else does.
pub proof fn law_param_names_skip_receivers(lang: SignatureLanguage, pieces: Seq<Seq<char>>)
    ensures
        lang == SignatureLanguage::Python ==> ({
            let r = param_names(lang, pieces);
            &&& forall|i: int| 0 <= i < r.len() ==> (#[trigger] r[i]).len() > 0 && r[i] != seq![
                's',
                'e',
                'l',
                'f',
            ] && r[i] != seq!['c', 'l', 's']
            &&& forall|k: int|
                0 <= k < pieces.len() && python_param_name(#[trigger] pieces[k]).len() > 0
                    && python_param_name(pieces[k]) != seq!['s', 'e', 'l', 'f']
                    && python_param_name(pieces[k]) != seq!['c', 'l', 's'] ==> r.contains(
                    python_param_name(pieces[k]),
                )
            &&& forall|i: int| 0 <= i < r.len() ==> exists|k: int|
                0 <= k < pieces.len() && #[trigger] r[i] == python_param_name(#[trigger] pieces[k])
        }),
        lang == SignatureLanguage::Rust ==> ({
            let r = param_names(lang, pieces);
            &&& forall|i: int| 0 <= i < r.len() ==> (#[trigger] r[i]).len() > 0 && r[i] != seq![
                's',
                'e',
                'l',
                'f',
            ] && r[i] != seq!['&', 's', 'e', 'l', 'f'] && r[i] != seq![
                '&',
                'm',
                'u',
                't',
                ' ',
                's',
                'e',
                'l',
                'f',
            ]
            &&& forall|k: int|
                0 <= k < pieces.len() && rust_param_kept(#[trigger] rust_param_name(pieces[k])) ==> r.contains(
                    rust_param_name(pieces[k]),
                )
            &&& forall|i: int| 0 <= i < r.len() ==> exists|k: int|
                0 <= k < pieces.len() && #[trigger] r[i] == rust_param_name(#[trigger] pieces[k])
        }),
    decreases pieces.len(),
{
    if pieces.len() > 0 {
        let d = pieces.drop_last();
        law_param_names_skip_receivers(lang, d);
        let r = param_names(lang, pieces);
        let prev = param_names(lang, d);
        let p = pieces.last();
        assert(pieces[pieces.len() - 1] == p);
        assert forall|k: int| 0 <= k < d.len() implies #[trigger] d[k] == pieces[k] by {}
        if lang == SignatureLanguage::Python {
            assert forall|i: int| 0 <= i < r.len() implies exists|k: int|
                0 <= k < pieces.len() && #[trigger] r[i] == python_param_name(#[trigger] pieces[k]) by {
                if i < prev.len() {
                    assert(r[i] == prev[i]);
                    let k = choose|k: int| 0 <= k < d.len() && #[trigger] prev[i] == python_param_name(#[trigger] d[k]);
                    assert(d[k] == pieces[k]);
                } else {
                    assert(r[i] == python_param_name(pieces[pieces.len() - 1]));
                }
            }
            assert forall|k: int|
                0 <= k < pieces.len() && python_param_name(#[trigger] pieces[k]).len() > 0
                    && python_param_name(pieces[k]) != seq!['s', 'e', 'l', 'f']
                    && python_param_name(pieces[k]) != seq!['c', 'l', 's'] implies r.contains(
                    python_param_name(pieces[k]),
                ) by {
                if k < d.len() {
                    assert(d[k] == pieces[k]);
                    assert(prev.contains(python_param_name(d[k])));
                    let i = choose|i: int| 0 <= i < prev.len() && prev[i] == python_param_name(d[k]);
                    if python_param_kept(python_param_name(p)) {
                        assert(r[i] == prev[i]);
                    }
                } else {
                    assert(r[r.len() - 1] == python_param_name(p));
                }
            }
            assert forall|i: int| 0 <= i < r.len() implies (#[trigger] r[i]).len() > 0 && r[i] != seq![
                's',
                'e',
                'l',
                'f',
            ] && r[i] != seq!['c', 'l', 's'] by {
                if i < prev.len() {
                    assert(r[i] == prev[i]);
                }
            }
        } else if lang == SignatureLanguage::Rust {
            assert forall|i: int| 0 <= i < r.len() implies exists|k: int|
                0 <= k < pieces.len() && #[trigger] r[i] == rust_param_name(#[trigger] pieces[k]) by {
                if i < prev.len() {
                    assert(r[i] == prev[i]);
                    let k = choose|k: int| 0 <= k < d.len() && #[trigger] prev[i] == rust_param_name(#[trigger] d[k]);
                    assert(d[k] == pieces[k]);
                } else {
                    assert(r[i] == rust_param_name(pieces[pieces.len() - 1]));
                }
            }
            assert forall|k: int|
                0 <= k < pieces.len() && rust_param_kept(#[trigger] rust_param_name(pieces[k])) implies r.contains(
                    rust_param_name(pieces[k]),
                ) by {
                if k < d.len() {
                    assert(d[k] == pieces[k]);
                    assert(prev.contains(rust_param_name(d[k])));
                    let i = choose|i: int| 0 <= i < prev.len() && prev[i] == rust_param_name(d[k]);
                    if rust_param_kept(rust_param_name(p)) {
                        assert(r[i] == prev[i]);
                    }
                } else {
                    assert(r[r.len() - 1] == rust_param_name(p));
                }
            }
            assert forall|i: int| 0 <= i < r.len() implies (#[trigger] r[i]).len() > 0 && r[i] != seq![
                's',
                'e',
                'l',
                'f',
            ] && r[i] != seq!['&', 's', 'e', 'l', 'f'] && r[i] != seq![
                '&',
                'm',
                'u',
                't',
                ' ',
                's',
                'e',
                'l',
                'f',
            ] by {
                if i < prev.len() {
                    assert(r[i] == prev[i]);
                }
            }
        }
    }
}

/// The parameters read from a Python signature never include the receivers `self` and
/// `cls`, nor an empty name.
pub proof fn law_python_params_exclude_receivers(sig: Seq<char>)
    ensures
        forall|i: int| 0 <= i < extract_params_spec(SignatureLanguage::Python, sig).len() ==> {
            let n = #[trigger] extract_params_spec(SignatureLanguage::Python, sig)[i];
            n.len() > 0 && n != seq!['s', 'e', 'l', 'f'] && n != seq!['c', 'l', 's']
        },
{
    let open = find_first(sig, seq!['(']);
    let close = rfind_char_spec(sig, ')');
    if open is Some && close is Some {
        law_param_names_skip_receivers(
            SignatureLanguage::Python,
            split_char_spec(sig.subrange(open->0 + 1, close->0), ','),
        );
    }
}

pub open spec fn has_return_value_spec(lang: SignatureLanguage, sig: Seq<char>) -> bool {
    match lang {
        SignatureLanguage::Rust => has_substring(sig, seq!['-', '>']) && !has_substring(
            sig,
            seq!['-', '>', ' ', '(', ')'],
        ) && !has_substring(sig, seq!['-', '>', ' ', '!']),
        SignatureLanguage::Python => has_substring(sig, seq!['-', '>']) && !has_substring(
            sig,
            seq!['-', '>', ' ', 'N', 'o', 'n', 'e'],
        ),
        SignatureLanguage::Generic => false,
    }
}

/// A separator between the words of a documentation text.
pub open spec fn is_word_sep(c: char) -> bool {
    !is_alphanumeric_char(c) && c != '_'
}

/// `s[a..b]` is one of the pieces of `s` split at separators.
pub open spec fn is_word_piece(s: Seq<char>, a: int, b: int) -> bool {
    &&& 0 <= a <= b <= s.len()
    &&& (a == 0 || is_word_sep(s[a - 1]))
    &&& (b == s.len() || is_word_sep(s[b]))
    &&& forall|k: int| a <= k < b ==> !is_word_sep(#[trigger] s[k])
}

/// The (lowercased) parameter name is one of the pieces of the documentation split at
/// separators.
pub open spec fn mentions_param_spec(doc_lower: Seq<char>, param: Seq<char>) -> bool {
    exists|a: int, b: int| #[trigger] is_word_piece(doc_lower, a, b) && doc_lower.subrange(a, b) == lowercase(param)
}

pub open spec fn mentions_return_spec(doc_lower: Seq<char>) -> bool {
    has_substring(doc_lower, seq!['r', 'e', 't', 'u', 'r', 'n']) || has_substring(
        doc_lower,
        seq!['r', 'e', 't', 'u', 'r', 'n', 's'],
    ) || has_substring(doc_lower, seq!['返', '回'])
}

/// Number of the parameters mentioned in the documentation.
pub open spec fn covered_count(doc_lower: Seq<char>, params: Seq<Seq<char>>) -> nat
    decreases params.len(),
{
    if params.len() == 0 {
        0
    } else {
        covered_count(doc_lower, params.drop_last()) + if mentions_param_spec(doc_lower, params.last()) {
            1nat
        } else {
            0nat
        }
    }
}

/// Description quality in tenths (0 to 3), from the word count.
pub open spec fn description_tenths(word_count: nat) -> nat {
    if word_count > 30 {
        3
    } else if word_count > 15 {
        2
    } else if word_count > 5 {
        1
    } else {
        0
    }
}

/// Keyword coverage in tenths, for a node without a signature: 3 for a mention of a return
/// value, 3 for a mention of arguments, 1 for an example, and at most 6 in all.
pub open spec fn keyword_tenths(doc_lower: Seq<char>) -> nat {
    let raw = keyword_mentions(doc_lower);
    if raw > 6 {
        6
    } else {
        raw
    }
}

/// The keyword mentions in tenths, before the cap.
pub open spec fn keyword_mentions(doc_lower: Seq<char>) -> nat {
    (if has_substring(doc_lower, seq!['r', 'e', 't', 'u', 'r', 'n', 's']) || has_substring(
        doc_lower,
        seq!['r', 'e', 't', 'u', 'r', 'n'],
    ) || has_substring(doc_lower, seq!['返', '回']) {
        3nat
    } else {
        0nat
    }) + (if has_substring(doc_lower, seq!['a', 'r', 'g', 's']) || has_substring(
        doc_lower,
        seq!['p', 'a', 'r', 'a', 'm', 'e', 't', 'e', 'r', 's'],
    ) || has_substring(doc_lower, seq!['p', 'a', 'r', 'a', 'm']) {
        3nat
    } else {
        0nat
    }) + (if has_substring(doc_lower, seq!['e', 'x', 'a', 'm', 'p', 'l', 'e']) || has_substring(
        doc_lower,
        seq!['u', 's', 'a', 'g', 'e'],
    ) {
        1nat
    } else {
        0nat
    })
}

/// The score as `numerator / denominator` before capping at 1.
pub open spec fn raw_score(info: NodeInfoModel, doc: Seq<char>) -> (nat, nat) {
    let doc_lower = lowercase(doc);
    let desc = description_tenths(words_spec(doc).len());
    match info.signature {
        Some(sig) => {
            let lang = language_of(info.language);
            let params = extract_params_spec(lang, sig);
            let ret = if has_return_value_spec(lang, sig) {
                if mentions_return_spec(doc_lower) {
                    3nat
                } else {
                    0nat
                }
            } else {
                1nat
            };
            if params.len() > 0 {
                (
                    (desc + ret) * params.len() + 4 * covered_count(doc_lower, params),
                    10 * params.len(),
                )
            } else {
                (desc + 2 + ret, 10nat)
            }
        },
        None => (desc + keyword_tenths(doc_lower), 10nat),
    }
}

/// The heuristic score: 0 without documentation text; otherwise description quality plus
/// coverage, capped at 1.
pub open spec fn heuristic_score(info: NodeInfoModel, doc: Option<Seq<char>>) -> DocScore {
    match doc {
        Some(d) => if trim_spec(d).len() > 0 {
            let (n, m) = raw_score(info, d);
            DocScore { numerator: (if n <= m { n } else { m }) as u128, denominator: m as u128 }
        } else {
            DocScore { numerator: 0, denominator: 1 }
        },
        None => DocScore { numerator: 0, denominator: 1 },
    }
}

/// Without documentation text, or with text that is only white space, the score is 0.
pub proof fn law_heuristic_no_text_scores_zero(info: NodeInfoModel, doc: Option<Seq<char>>)
    requires
        doc is None || trim_spec(doc->0).len() == 0,
    ensures
        heuristic_score(info, doc).numerator == 0,
        heuristic_score(info, doc).denominator > 0,
{
}

/// Without a signature, keywords add at most 6 tenths: the score is at most the
/// description's tenths plus 6, out of 10 (the returns, arguments and example keywords
/// together would give 7).
pub proof fn law_keyword_part_capped(info: NodeInfoModel, d: Seq<char>)
    requires
        info.signature is None,
        trim_spec(d).len() > 0,
    ensures
        heuristic_score(info, Some(d)).denominator == 10,
        heuristic_score(info, Some(d)).numerator <= description_tenths(words_spec(d).len()) + 6,
{
}

// -----------------------------------------------------------------------------
// Implementation
// -----------------------------------------------------------------------------

/// The language family of a node's language name (`rs`/`rust`, `py`/`python`, or other).
pub fn get_extractor(language: Option<&String>) -> (r: SignatureLanguage)
    ensures
        r == language_of(match language {
            Some(l) => Some(l@),
            None => None,
        }),
{
    match language {
        Some(l) => {
            let c = str_chars(l.as_str());
            let rs = ['r', 's'];
            let rust = ['r', 'u', 's', 't'];
            let py = ['p', 'y'];
            let python = ['p', 'y', 't', 'h', 'o', 'n'];
            assert(rs@ =~= seq!['r', 's']);
            assert(rust@ =~= seq!['r', 'u', 's', 't']);
            assert(py@ =~= seq!['p', 'y']);
            assert(python@ =~= seq!['p', 'y', 't', 'h', 'o', 'n']);
            if chars_eq(c.as_slice(), rs.as_slice()) || chars_eq(c.as_slice(), rust.as_slice()) {
                SignatureLanguage::Rust
            } else if chars_eq(c.as_slice(), py.as_slice()) || chars_eq(c.as_slice(), python.as_slice()) {
                SignatureLanguage::Python
            } else {
                SignatureLanguage::Generic
            }
        },
        None => SignatureLanguage::Generic,
    }
}

fn first_piece_exec(s: &[char], c: char) -> (r: Vec<char>)
    ensures
        r@ == first_piece(s@, c),
{
    proof {
        crate::text::lemma_find_from_bounds(s@, seq![c], 0);
    }
    match find_char(s, c) {
        Some(i) => {
            let r = slice_chars(s, 0, i);
            assert(r@ =~= s@.take(i as int));
            r
        },
        None => {
            let r = slice_chars(s, 0, s.len());
            assert(r@ =~= s@);
            r
        },
    }
}

fn strip_leading_stars_exec(s: &[char]) -> (r: Vec<char>)
    ensures
        r@ == strip_leading_stars(s@),
{
    let mut i: usize = 0;
    assert(s@.skip(0) =~= s@);
    while i < s.len() && s[i] == '*'
        invariant
            i <= s@.len(),
            strip_leading_stars(s@) == strip_leading_stars(s@.skip(i as int)),
        decreases s@.len() - i,
    {
        assert(s@.skip(i as int).drop_first() =~= s@.skip(i + 1));
        i = i + 1;
    }
    let r = slice_chars(s, i, s.len());
    assert(r@ =~= s@.skip(i as int));
    r
}

/// Extracts parameter names from a signature string.
pub fn extract_params(lang: SignatureLanguage, signature: &[char]) -> (r: Vec<Vec<char>>)
    requires
        readable_for(lang, signature@),
    ensures
        deep_chars(r@) == extract_params_spec(lang, signature@),
{
    if lang == SignatureLanguage::Generic {
        return Vec::new();
    }
    let open = find_char(signature, '(');
    let close = if lang == SignatureLanguage::Python {
        rfind_char(signature, ')')
    } else {
        find_char(signature, ')')
    };
    let (start, end) = match (open, close) {
        (Some(a), Some(b)) => (a, b),
        _ => {
            return Vec::new();
        },
    };
    proof {
        crate::text::lemma_find_from_bounds(signature@, seq![')'], 0);
        crate::text::lemma_find_from_bounds(signature@, seq!['('], 0);
        if lang == SignatureLanguage::Python {
            crate::text::lemma_rfind_char_bounds(signature@, ')');
        }
    }
    let inner = slice_chars(signature, start + 1, end);
    let pieces = split_char(inner.as_slice(), ',');
    let ghost ps = split_char_spec(inner@, ',');
    let self_ = ['s', 'e', 'l', 'f'];
    let ref_self = ['&', 's', 'e', 'l', 'f'];
    let mut_self = ['&', 'm', 'u', 't', ' ', 's', 'e', 'l', 'f'];
    let cls = ['c', 'l', 's'];
    assert(self_@ =~= seq!['s', 'e', 'l', 'f']);
    assert(ref_self@ =~= seq!['&', 's', 'e', 'l', 'f']);
    assert(mut_self@ =~= seq!['&', 'm', 'u', 't', ' ', 's', 'e', 'l', 'f']);
    assert(cls@ =~= seq!['c', 'l', 's']);
    let mut names: Vec<Vec<char>> = Vec::new();
    let mut i: usize = 0;
    while i < pieces.len()
        invariant
            i <= pieces@.len(),
            lang != SignatureLanguage::Generic,
            deep_chars(pieces@) == ps,
            deep_chars(names@) == param_names(lang, ps.take(i as int)),
            self_@ == seq!['s', 'e', 'l', 'f'],
            ref_self@ == seq!['&', 's', 'e', 'l', 'f'],
            mut_self@ == seq!['&', 'm', 'u', 't', ' ', 's', 'e', 'l', 'f'],
            cls@ == seq!['c', 'l', 's'],
        decreases pieces@.len() - i,
    {
        let p = &pieces[i];
        proof {
            assert(p@ == ps[i as int]);
            assert(ps.take(i as int + 1).drop_last() =~= ps.take(i as int));
            assert(ps.take(i as int + 1).last() == p@);
        }
        let ghost before = names@;
        if lang == SignatureLanguage::Rust {
            let head = first_piece_exec(p.as_slice(), ':');
            let name = trim(head.as_slice());
            let kept = name.len() > 0 && !chars_eq(name.as_slice(), self_.as_slice()) && !chars_eq(
                name.as_slice(),
                ref_self.as_slice(),
            ) && !chars_eq(name.as_slice(), mut_self.as_slice());
            if kept {
                names.push(name);
                assert(deep_chars(names@) =~= deep_chars(before).push(rust_param_name(p@)));
            }
        } else {
            let head = first_piece_exec(p.as_slice(), ':');
            let head2 = first_piece_exec(head.as_slice(), '=');
            let trimmed = trim(head2.as_slice());
            let name = strip_leading_stars_exec(trimmed.as_slice());
            let kept = name.len() > 0 && !chars_eq(name.as_slice(), self_.as_slice()) && !chars_eq(
                name.as_slice(),
                cls.as_slice(),
            );
            if kept {
                names.push(name);
                assert(deep_chars(names@) =~= deep_chars(before).push(python_param_name(p@)));
            }
        }
        i = i + 1;
    }
    assert(ps.take(i as int) =~= ps);
    names
}

/// Does the signature indicate a return value?
pub fn has_return_value(lang: SignatureLanguage, signature: &[char]) -> (r: bool)
    ensures
        r == has_return_value_spec(lang, signature@),
{
    let arrow = ['-', '>'];
    assert(arrow@ =~= seq!['-', '>']);
    match lang {
        SignatureLanguage::Rust => {
            let unit = ['-', '>', ' ', '(', ')'];
            let never = ['-', '>', ' ', '!'];
            assert(unit@ =~= seq!['-', '>', ' ', '(', ')']);
            assert(never@ =~= seq!['-', '>', ' ', '!']);
            contains(signature, arrow.as_slice()) && !contains(signature, unit.as_slice())
                && !contains(signature, never.as_slice())
        },
        SignatureLanguage::Python => {
            let none = ['-', '>', ' ', 'N', 'o', 'n', 'e'];
            assert(none@ =~= seq!['-', '>', ' ', 'N', 'o', 'n', 'e']);
            contains(signature, arrow.as_slice()) && !contains(signature, none.as_slice())
        },
        SignatureLanguage::Generic => false,
    }
}

fn is_word_sep_exec(c: char) -> (r: bool)
    ensures
        r == is_word_sep(c),
{
    !char_is_alphanumeric(c) && c != '_'
}

/// Checks if a parameter is mentioned in the documentation as a whole word.
pub fn mentions_param(doc_lower: &[char], param_name: &[char]) -> (r: bool)
    ensures
        r == mentions_param_spec(doc_lower@, param_name@),
{
    let p = string_from_chars(param_name);
    let pl = str_to_lowercase(p.as_str());
    let param_lower = str_chars(pl.as_str());
    let ghost s = doc_lower@;
    let ghost target = lowercase(param_name@);
    let mut start: usize = 0;
    let mut i: usize = 0;
    while i < doc_lower.len()
        invariant
            start <= i <= s.len(),
            s == doc_lower@,
            s.len() == doc_lower.len(),
            param_lower@ == target,
            target == lowercase(param_name@),
            start == 0 || is_word_sep(s[start - 1]),
            forall|k: int| start <= k < i ==> !is_word_sep(#[trigger] s[k]),
            forall|a: int, b: int|
                #[trigger] is_word_piece(s, a, b) && a < start ==> s.subrange(a, b) != target,
        decreases s.len() - i,
    {
        if is_word_sep_exec(doc_lower[i]) {
            let piece = slice_chars(doc_lower, start, i);
            if chars_eq(piece.as_slice(), param_lower.as_slice()) {
                assert(is_word_piece(s, start as int, i as int));
                assert(s.subrange(start as int, i as int) == target);
                return true;
            }
            proof {
                assert forall|a: int, b: int|
                    #[trigger] is_word_piece(s, a, b) && a < i + 1 implies s.subrange(a, b) != target by {
                    if a >= start {
                        if a > start {
                            assert(!is_word_sep(s[a - 1]));
                        }
                        if b < i {
                            assert(!is_word_sep(s[b]));
                        }
                        if b > i {
                            assert(!is_word_sep(s[i as int]));
                        }
                        assert(a == start && b == i);
                    }
                }
            }
            start = i + 1;
        }
        i = i + 1;
    }
    let piece = slice_chars(doc_lower, start, doc_lower.len());
    let found = chars_eq(piece.as_slice(), param_lower.as_slice());
    proof {
        if found {
            assert(is_word_piece(s, start as int, s.len() as int));
            assert(s.subrange(start as int, s.len() as int) == target);
        } else {
            assert forall|a: int, b: int| #[trigger] is_word_piece(s, a, b) implies s.subrange(a, b) != target by {
                if a >= start {
                    if a > start {
                        assert(!is_word_sep(s[a - 1]));
                    }
                    if b < s.len() {
                        assert(!is_word_sep(s[b]));
                    }
                    assert(a == start && b == s.len());
                }
            }
        }
    }
    found
}

/// Checks if a return value is mentioned in the documentation.
pub fn mentions_return(doc_lower: &[char]) -> (r: bool)
    ensures
        r == mentions_return_spec(doc_lower@),
{
    let ret = ['r', 'e', 't', 'u', 'r', 'n'];
    let rets = ['r', 'e', 't', 'u', 'r', 'n', 's'];
    let zh = ['返', '回'];
    assert(ret@ =~= seq!['r', 'e', 't', 'u', 'r', 'n']);
    assert(rets@ =~= seq!['r', 'e', 't', 'u', 'r', 'n', 's']);
    assert(zh@ =~= seq!['返', '回']);
    contains(doc_lower, ret.as_slice()) || contains(doc_lower, rets.as_slice()) || contains(
        doc_lower,
        zh.as_slice(),
    )
}

fn keyword_tenths_exec(doc_lower: &[char]) -> (r: u128)
    ensures
        r == keyword_tenths(doc_lower@),
{
    let returns_word = ['r', 'e', 't', 'u', 'r', 'n', 's'];
    let ret = ['r', 'e', 't', 'u', 'r', 'n'];
    let zh = ['返', '回'];
    let args = ['a', 'r', 'g', 's'];
    let parameters = ['p', 'a', 'r', 'a', 'm', 'e', 't', 'e', 'r', 's'];
    let param = ['p', 'a', 'r', 'a', 'm'];
    let example = ['e', 'x', 'a', 'm', 'p', 'l', 'e'];
    let usage = ['u', 's', 'a', 'g', 'e'];
    assert(returns_word@ =~= seq!['r', 'e', 't', 'u', 'r', 'n', 's']);
    assert(ret@ =~= seq!['r', 'e', 't', 'u', 'r', 'n']);
    assert(zh@ =~= seq!['返', '回']);
    assert(args@ =~= seq!['a', 'r', 'g', 's']);
    assert(parameters@ =~= seq!['p', 'a', 'r', 'a', 'm', 'e', 't', 'e', 'r', 's']);
    assert(param@ =~= seq!['p', 'a', 'r', 'a', 'm']);
    assert(example@ =~= seq!['e', 'x', 'a', 'm', 'p', 'l', 'e']);
    assert(usage@ =~= seq!['u', 's', 'a', 'g', 'e']);
    let mut coverage: u128 = 0;
    if contains(doc_lower, returns_word.as_slice()) || contains(doc_lower, ret.as_slice()) || contains(
        doc_lower,
        zh.as_slice(),
    ) {
        coverage = coverage + 3;
    }
    if contains(doc_lower, args.as_slice()) || contains(doc_lower, parameters.as_slice()) || contains(
        doc_lower,
        param.as_slice(),
    ) {
        coverage = coverage + 3;
    }
    if contains(doc_lower, example.as_slice()) || contains(doc_lower, usage.as_slice()) {
        coverage = coverage + 1;
    }
    if coverage > 6 {
        coverage = 6;
    }
    coverage
}

/// Heuristic documentation scorer.
/// Evaluates length, keyword presence, and coverage of parameters/return values.
pub struct HeuristicDocScorer;

impl HeuristicDocScorer {
    pub fn new() -> (r: Self) {
        Self
    }
}

impl Default for HeuristicDocScorer {
    fn default() -> (r: Self) {
        Self::new()
    }
}

impl DocumentationScorer for HeuristicDocScorer {
    open spec fn spec_score(&self, info: NodeInfoModel, doc: Option<Seq<char>>) -> DocScore {
        heuristic_score(info, doc)
    }

    fn score(&self, node_info: &NodeInfo, doc_text: Option<&str>) -> (r: DocScore) {
        let doc = match doc_text {
            Some(d) => d,
            None => {
                return DocScore::zero();
            },
        };
        let doc_chars = str_chars(doc);
        let trimmed = trim(doc_chars.as_slice());
        if trimmed.len() == 0 {
            return DocScore::zero();
        }
        let lower = str_to_lowercase(doc);
        let doc_lower = str_chars(lower.as_str());
        let word_count = count_words(doc_chars.as_slice());
        // 1. Description quality (tenths, 0 to 3)
        let desc: u128 = if word_count > 30 {
            3
        } else if word_count > 15 {
            2
        } else if word_count > 5 {
            1
        } else {
            0
        };
        // 2. Coverage
        let ghost info = node_info.model();
        let (n, m): (u128, u128) = match &node_info.signature {
            Some(signature) => {
                let lang = get_extractor(node_info.language.as_ref());
                assert(lang == language_of(info.language));
                let sig = str_chars(signature.as_str());
                let params = extract_params(lang, sig.as_slice());
                let has_ret = has_return_value(lang, sig.as_slice());
                let ret: u128 = if has_ret {
                    if mentions_return(doc_lower.as_slice()) {
                        3
                    } else {
                        0
                    }
                } else {
                    1
                };
                if params.len() > 0 {
                    let ghost ps = deep_chars(params@);
                    let mut covered: u128 = 0;
                    let mut i: usize = 0;
                    while i < params.len()
                        invariant
                            i <= params@.len(),
                            ps == deep_chars(params@),
                            covered == covered_count(doc_lower@, ps.take(i as int)),
                            covered <= i,
                        decreases params@.len() - i,
                    {
                        proof {
                            assert(ps.take(i as int + 1).drop_last() =~= ps.take(i as int));
                            assert(ps.take(i as int + 1).last() == params@[i as int]@);
                        }
                        if mentions_param(doc_lower.as_slice(), params[i].as_slice()) {
                            covered = covered + 1;
                        }
                        i = i + 1;
                    }
                    assert(ps.take(i as int) =~= ps);
                    let len = params.len() as u128;
                    assert((desc + ret) * len <= 6 * len) by (nonlinear_arith)
                        requires
                            desc + ret <= 6,
                    ;
                    ((desc + ret) * len + 4 * covered, 10 * len)
                } else {
                    (desc + 2 + ret, 10)
                }
            },
            None => (desc + keyword_tenths_exec(doc_lower.as_slice()), 10),
        };
        let capped = if n <= m {
            n
        } else {
            m
        };
        DocScore::new(capped, m)
    }
}

} // verus!
