//! SCIP symbol strings: `<scheme> <manager> <package> <version> <descriptors>`.
use crate::text::{
    deep_chars, is_prefix, replace_all, replace_all_spec, slice_chars, str_chars, str_equals,
    str_starts_with, string_from_chars, trim_matches_char, trim_matches_spec,
};
use crate::domain::policy::strings_view;
use vstd::prelude::*;

verus! {

#[derive(Debug, Clone, Copy, PartialEq, Eq, Structural)]
pub enum SymbolType {
    Function,
    Method,
    Class,
    Variable,
    Namespace,
    Local,
    Other,
}

#[derive(Debug, Clone)]
pub struct Descriptor {
    pub name: String,
    pub suffix: String,
}

#[derive(Debug, Clone)]
pub struct ScipSymbol {
    pub scheme: String,
    pub package_manager: String,
    pub package_name: String,
    pub package_version: String,
    pub descriptors: Vec<Descriptor>,
}

/// A symbol as plain values: the four header parts and the (name, suffix) descriptors.
pub struct ScipSymbolModel {
    pub scheme: Seq<char>,
    pub package_manager: Seq<char>,
    pub package_name: Seq<char>,
    pub package_version: Seq<char>,
    pub descriptors: Seq<(Seq<char>, Seq<char>)>,
}

pub open spec fn descriptor_models(ds: Seq<Descriptor>) -> Seq<(Seq<char>, Seq<char>)> {
    ds.map_values(|d: Descriptor| (d.name@, d.suffix@))
}

impl ScipSymbol {
    pub open spec fn model(&self) -> ScipSymbolModel {
        ScipSymbolModel {
            scheme: self.scheme@,
            package_manager: self.package_manager@,
            package_name: self.package_name@,
            package_version: self.package_version@,
            descriptors: descriptor_models(self.descriptors@),
        }
    }
}

// -----------------------------------------------------------------------------
// Specification
// -----------------------------------------------------------------------------

/// Number of backticks in `s`.
pub open spec fn backtick_count(s: Seq<char>) -> nat
    decreases s.len(),
{
    if s.len() == 0 {
        0
    } else {
        backtick_count(s.drop_last()) + if s.last() == '`' {
            1nat
        } else {
            0nat
        }
    }
}

/// `suffix` occurs at `k` outside backticks (an even number of backticks before it).
pub open spec fn unescaped_at(s: Seq<char>, suffix: Seq<char>, k: int) -> bool {
    is_prefix(suffix, s.skip(k)) && backtick_count(s.take(k)) % 2 == 0
}

/// First position (from `i` on) where `suffix` occurs outside backticks.
pub open spec fn find_unescaped_from(s: Seq<char>, suffix: Seq<char>, i: int) -> Option<int>
    decreases s.len() - i,
{
    if i < 0 || i >= s.len() {
        None
    } else if unescaped_at(s, suffix, i) {
        Some(i)
    } else {
        find_unescaped_from(s, suffix, i + 1)
    }
}

/// Where the scan for `suffix` stops: its first unescaped occurrence, or the end.
pub open spec fn scan_end(s: Seq<char>, suffix: Seq<char>) -> int {
    match find_unescaped_from(s, suffix, 0) {
        Some(k) => k,
        None => s.len() as int,
    }
}

/// The scan for `suffix` (byte by byte) only meets single-byte characters before it stops,
/// so every position it slices at is a char boundary.
pub open spec fn scan_ascii(s: Seq<char>, suffix: Seq<char>) -> bool {
    forall|k: int| 0 <= k < scan_end(s, suffix) ==> (#[trigger] s[k] as u32) < 0x80
}

/// The descriptor suffixes, in the order in which they win ties.
pub open spec fn suffixes() -> Seq<Seq<char>> {
    seq![
        seq!['(', ')', '.'],
        seq!['#'],
        seq!['.'],
        seq!['/'],
        seq!['!'],
        seq![':'],
        seq!['['],
        seq![']'],
        seq!['('],
        seq![')'],
    ]
}

/// The earliest unescaped suffix among the first `n` suffixes (the earlier suffix on a tie).
pub open spec fn first_suffix(s: Seq<char>, n: int) -> Option<(int, int)>
    decreases n,
{
    if n <= 0 {
        None
    } else {
        let prev = first_suffix(s, n - 1);
        match find_unescaped_from(s, suffixes()[n - 1], 0) {
            Some(idx) => match prev {
                Some(p) => if idx < p.1 {
                    Some((n - 1, idx))
                } else {
                    prev
                },
                None => Some((n - 1, idx)),
            },
            None => prev,
        }
    }
}

/// A descriptor's name: backticks trimmed from both ends, doubled backticks undoubled.
pub open spec fn clean_name(s: Seq<char>) -> Seq<char> {
    replace_all_spec(trim_matches_spec(s, '`'), seq!['`', '`'], seq!['`'])
}

/// Every scan made while parsing descriptors stays on char boundaries.
pub open spec fn descriptors_parse_ok(s: Seq<char>) -> bool
    decreases s.len(),
{
    if s.len() == 0 {
        true
    } else {
        &&& forall|j: int| 0 <= j < 10 ==> scan_ascii(s, #[trigger] suffixes()[j])
        &&& match first_suffix(s, 10) {
            Some((j, idx)) => {
                proof {
                    lemma_find_unescaped_bounds(s, suffixes()[j], 0);
                    lemma_first_suffix_found(s, 10);
                }
                descriptors_parse_ok(s.skip(idx + suffixes()[j].len()))
            },
            None => true,
        }
    }
}

/// The descriptors of a descriptor string, read left to right.
pub open spec fn parse_descriptors_spec(s: Seq<char>) -> Seq<(Seq<char>, Seq<char>)>
    decreases s.len(),
{
    if s.len() == 0 {
        Seq::empty()
    } else {
        match first_suffix(s, 10) {
            Some((j, idx)) => {
                proof {
                    lemma_find_unescaped_bounds(s, suffixes()[j], 0);
                    lemma_first_suffix_found(s, 10);
                }
                seq![(clean_name(s.take(idx)), suffixes()[j])] + parse_descriptors_spec(
                    s.skip(idx + suffixes()[j].len()),
                )
            },
            None => Seq::empty(),
        }
    }
}

pub proof fn lemma_find_unescaped_bounds(s: Seq<char>, suffix: Seq<char>, i: int)
    ensures
        find_unescaped_from(s, suffix, i) matches Some(k) ==> i <= k < s.len() && unescaped_at(
            s,
            suffix,
            k,
        ),
        find_unescaped_from(s, suffix, i) matches Some(k) ==> forall|m: int|
            i <= m < k ==> !unescaped_at(s, suffix, m),
        find_unescaped_from(s, suffix, i) is None && i >= 0 ==> forall|m: int|
            i <= m < s.len() ==> !unescaped_at(s, suffix, m),
    decreases s.len() - i,
{
    if i >= 0 && i < s.len() && !unescaped_at(s, suffix, i) {
        lemma_find_unescaped_bounds(s, suffix, i + 1);
    }
}

/// The chosen suffix is one of the first `n`, found where it occurs unescaped.
pub proof fn lemma_first_suffix_found(s: Seq<char>, n: int)
    requires
        n <= 10,
    ensures
        first_suffix(s, n) matches Some((j, idx)) ==> 0 <= j < n && find_unescaped_from(
            s,
            suffixes()[j],
            0,
        ) == Some(idx),
    decreases n,
{
    if n > 0 {
        lemma_first_suffix_found(s, n - 1);
    }
}

/// The header parts read by the scan from `i`, with the current part starting at `start`;
/// a double space is an escaped space. Gives the parts and where the descriptors start.
pub open spec fn split_parts(s: Seq<char>, i: int, start: int, parts: Seq<Seq<char>>) -> (Seq<Seq<char>>, int)
    decreases s.len() - i,
{
    if parts.len() >= 4 || i < 0 || i >= s.len() {
        (parts, start)
    } else if s[i] == ' ' {
        if i + 1 < s.len() && s[i + 1] == ' ' {
            split_parts(s, i + 2, start, parts)
        } else {
            split_parts(
                s,
                i + 1,
                i + 1,
                parts.push(replace_all_spec(s.subrange(start, i), seq![' ', ' '], seq![' '])),
            )
        }
    } else {
        split_parts(s, i + 1, start, parts)
    }
}

pub proof fn lemma_split_parts_bounds(s: Seq<char>, i: int, start: int, parts: Seq<Seq<char>>)
    requires
        0 <= start <= s.len(),
        0 <= i,
    ensures
        0 <= split_parts(s, i, start, parts).1 <= s.len(),
    decreases s.len() - i,
{
    if !(parts.len() >= 4 || i >= s.len()) {
        if s[i] == ' ' {
            if i + 1 < s.len() && s[i + 1] == ' ' {
                lemma_split_parts_bounds(s, i + 2, start, parts);
            } else {
                lemma_split_parts_bounds(
                    s,
                    i + 1,
                    i + 1,
                    parts.push(replace_all_spec(s.subrange(start, i), seq![' ', ' '], seq![' '])),
                );
            }
        } else {
            lemma_split_parts_bounds(s, i + 1, start, parts);
        }
    }
}

/// The descriptor string of a non-local symbol.
pub open spec fn descriptor_text(s: Seq<char>) -> Seq<char> {
    s.skip(split_parts(s, 0, 0, Seq::empty()).1)
}

/// The parsed symbol: a local symbol (`local <name>`), or four header parts and the
/// descriptors; `None` when the header has fewer than four parts.
pub open spec fn parse_spec(s: Seq<char>) -> Option<ScipSymbolModel> {
    if is_prefix("local "@, s) {
        Some(
            ScipSymbolModel {
                scheme: "local"@,
                package_manager: Seq::empty(),
                package_name: Seq::empty(),
                package_version: Seq::empty(),
                descriptors: seq![(s.skip(6), "local"@)],
            },
        )
    } else {
        let (parts, start) = split_parts(s, 0, 0, Seq::empty());
        if parts.len() < 4 {
            None
        } else {
            Some(
                ScipSymbolModel {
                    scheme: parts[0],
                    package_manager: parts[1],
                    package_name: parts[2],
                    package_version: parts[3],
                    descriptors: parse_descriptors_spec(s.skip(start)),
                },
            )
        }
    }
}

/// The symbols that parse without slicing inside a character.
pub open spec fn parse_ok(s: Seq<char>) -> bool {
    is_prefix("local "@, s) || descriptors_parse_ok(descriptor_text(s))
}

pub open spec fn infer_type_spec(m: ScipSymbolModel) -> SymbolType {
    if m.scheme == "local"@ {
        SymbolType::Local
    } else if m.descriptors.len() == 0 {
        SymbolType::Other
    } else {
        let last = m.descriptors.last().1;
        if last == "()."@ {
            if m.descriptors.len() > 1 && m.descriptors[m.descriptors.len() - 2].1 == "#"@ {
                SymbolType::Method
            } else {
                SymbolType::Function
            }
        } else if last == "#"@ {
            SymbolType::Class
        } else if last == "."@ {
            SymbolType::Variable
        } else if last == "/"@ {
            SymbolType::Namespace
        } else {
            SymbolType::Other
        }
    }
}

// -----------------------------------------------------------------------------
// Implementation
// -----------------------------------------------------------------------------

/// The descriptor suffix number `j` (see `suffixes`).
fn suffix_at(j: usize) -> (r: Vec<char>)
    requires
        j < 10,
    ensures
        r@ == suffixes()[j as int],
{
    let r = match j {
        0 => vec!['(', ')', '.'],
        1 => vec!['#'],
        2 => vec!['.'],
        3 => vec!['/'],
        4 => vec!['!'],
        5 => vec![':'],
        6 => vec!['['],
        7 => vec![']'],
        8 => vec!['('],
        _ => vec![')'],
    };
    assert(r@ =~= suffixes()[j as int]);
    r
}

/// First position of `suffix` in `s` outside backticks.
fn find_unescaped_suffix(s: &[char], suffix: &[char]) -> (r: Option<usize>)
    ensures
        match r {
            Some(k) => find_unescaped_from(s@, suffix@, 0) == Some(k as int),
            None => find_unescaped_from(s@, suffix@, 0) is None,
        },
{
    let mut i: usize = 0;
    let mut backticks: usize = 0;
    while i < s.len()
        invariant
            i <= s@.len(),
            s@.len() == s.len(),
            backticks == backtick_count(s@.take(i as int)),
            backticks <= i,
            find_unescaped_from(s@, suffix@, 0) == find_unescaped_from(s@, suffix@, i as int),
        decreases s@.len() - i,
    {
        let rest = slice_chars(s, i, s.len());
        assert(rest@ =~= s@.skip(i as int));
        if crate::text::starts_with(rest.as_slice(), suffix) && backticks % 2 == 0 {
            return Some(i);
        }
        assert(s@.take(i as int + 1).drop_last() =~= s@.take(i as int));
        if s[i] == '`' {
            backticks = backticks + 1;
        }
        i = i + 1;
    }
    None
}

fn to_string(v: &Vec<char>) -> (r: String)
    ensures
        r@ == v@,
{
    string_from_chars(v.as_slice())
}

/// Parse a descriptor string into its descriptors.
fn parse_descriptors(s: &[char]) -> (r: Vec<Descriptor>)
    requires
        descriptors_parse_ok(s@),
    ensures
        descriptor_models(r@) == parse_descriptors_spec(s@),
{
    let mut descriptors: Vec<Descriptor> = Vec::new();
    let mut pos: usize = 0;
    assert(s@.skip(0) =~= s@);
    assert(descriptor_models(descriptors@) + parse_descriptors_spec(s@) =~= parse_descriptors_spec(s@));
    while pos < s.len()
        invariant
            pos <= s@.len(),
            s@.len() == s.len(),
            descriptors_parse_ok(s@.skip(pos as int)),
            descriptor_models(descriptors@) + parse_descriptors_spec(s@.skip(pos as int))
                == parse_descriptors_spec(s@),
        decreases s@.len() - pos,
    {
        let rest = slice_chars(s, pos, s.len());
        assert(rest@ =~= s@.skip(pos as int));
        // The earliest unescaped suffix (the earlier one in the list on a tie)
        let mut best: Option<(usize, usize)> = None;
        let mut j: usize = 0;
        while j < 10
            invariant
                j <= 10,
                match best {
                    Some((a, b)) => first_suffix(rest@, j as int) == Some((a as int, b as int)),
                    None => first_suffix(rest@, j as int) is None,
                },
            decreases 10 - j,
        {
            let suffix = suffix_at(j);
            match find_unescaped_suffix(rest.as_slice(), suffix.as_slice()) {
                Some(idx) => {
                    match best {
                        Some((_, b)) => {
                            if idx < b {
                                best = Some((j, idx));
                            }
                        },
                        None => {
                            best = Some((j, idx));
                        },
                    }
                },
                None => {},
            }
            j = j + 1;
        }
        let (j, idx) = match best {
            Some(x) => x,
            None => {
                proof {
                    assert(parse_descriptors_spec(rest@) =~= Seq::<(Seq<char>, Seq<char>)>::empty());
                    assert(descriptor_models(descriptors@) + parse_descriptors_spec(rest@) =~= descriptor_models(
                        descriptors@,
                    ));
                }
                return descriptors;
            },
        };
        proof {
            lemma_first_suffix_found(rest@, 10);
        }
        let suffix = suffix_at(j);
        proof {
            lemma_find_unescaped_bounds(rest@, suffixes()[j as int], 0);
            assert(is_prefix(suffix@, rest@.skip(idx as int)));
        }
        let raw = slice_chars(rest.as_slice(), 0, idx);
        assert(raw@ =~= rest@.take(idx as int));
        let trimmed = trim_matches_char(raw.as_slice(), '`');
        let double = ['`', '`'];
        let single = ['`'];
        assert(double@ =~= seq!['`', '`']);
        assert(single@ =~= seq!['`']);
        let name = replace_all(trimmed.as_slice(), double.as_slice(), single.as_slice());
        let d = Descriptor { name: to_string(&name), suffix: to_string(&suffix) };
        let ghost before = descriptors@;
        descriptors.push(d);
        proof {
            let next = rest@.skip(idx + suffix@.len());
            assert(next =~= s@.skip(pos + idx + suffix@.len()));
            assert(parse_descriptors_spec(rest@) == seq![(clean_name(rest@.take(idx as int)), suffixes()[j as int])]
                + parse_descriptors_spec(next));
            assert(descriptor_models(descriptors@) =~= descriptor_models(before).push(
                (clean_name(rest@.take(idx as int)), suffixes()[j as int]),
            ));
            assert(descriptor_models(descriptors@) + parse_descriptors_spec(next) =~= descriptor_models(
                before,
            ) + parse_descriptors_spec(rest@));
        }
        pos = pos + idx + suffix.len();
    }
    proof {
        assert(s@.skip(pos as int) =~= Seq::<char>::empty());
        assert(descriptor_models(descriptors@) + parse_descriptors_spec(s@.skip(pos as int)) =~= descriptor_models(
            descriptors@,
        ));
    }
    descriptors
}

/// The header parts of a non-local symbol and where its descriptors start.
fn header_parts(chars: &Vec<char>, symbol: &str) -> (r: (Vec<String>, usize))
    requires
        chars@ == symbol@,
    ensures
        (strings_view(r.0@), r.1 as int) == split_parts(symbol@, 0, 0, Seq::empty()),
        r.1 <= symbol@.len(),
{
    let n = chars.len();
    let mut parts: Vec<String> = Vec::new();
    assert(strings_view(parts@) =~= Seq::<Seq<char>>::empty());
    let mut start: usize = 0;
    let mut i: usize = 0;
    let doubled = [' ', ' '];
    let single = [' '];
    assert(doubled@ =~= seq![' ', ' ']);
    assert(single@ =~= seq![' ']);
    while parts.len() < 4 && i < n
        invariant
            start <= i,
            i <= n + 1,
            start <= n,
            n == chars@.len(),
            chars@ == symbol@,
            doubled@ == seq![' ', ' '],
            single@ == seq![' '],
            split_parts(symbol@, 0, 0, Seq::empty()) == split_parts(
                symbol@,
                i as int,
                start as int,
                strings_view(parts@),
            ),
        decreases n + 2 - i,
    {
        if chars[i] == ' ' {
            if i + 1 < n && chars[i + 1] == ' ' {
                // Escaped space
                i = i + 2;
                continue;
            } else {
                let raw = slice_chars(chars.as_slice(), start, i);
                let part = replace_all(raw.as_slice(), doubled.as_slice(), single.as_slice());
                let ghost before = parts@;
                parts.push(to_string(&part));
                assert(strings_view(parts@) =~= strings_view(before).push(
                    part@,
                ));
                start = i + 1;
            }
        }
        i = i + 1;
    }
    proof {
        lemma_split_parts_bounds(symbol@, 0, 0, Seq::empty());
        if i > n {
            assert(split_parts(symbol@, i as int, start as int, strings_view(parts@))
                == (strings_view(parts@), start as int));
        }
    }
    (parts, start)
}

/// Whether the characters of `s` before `end` are all ASCII.
fn ascii_before(s: &[char], end: usize) -> (r: bool)
    requires
        end <= s@.len(),
    ensures
        r == forall|k: int| 0 <= k < end ==> (#[trigger] s@[k] as u32) < 0x80,
{
    let mut i: usize = 0;
    while i < end
        invariant
            i <= end,
            end <= s@.len(),
            forall|k: int| 0 <= k < i ==> (#[trigger] s@[k] as u32) < 0x80,
        decreases end - i,
    {
        if (s[i] as u32) >= 0x80 {
            return false;
        }
        i = i + 1;
    }
    true
}

/// Whether every scan made while parsing the descriptor string `s` stays on char boundaries.
fn descriptors_scan_ok(s: &[char]) -> (r: bool)
    ensures
        r == descriptors_parse_ok(s@),
{
    let mut pos: usize = 0;
    assert(s@.skip(0) =~= s@);
    while pos < s.len()
        invariant
            pos <= s@.len(),
            s@.len() == s.len(),
            descriptors_parse_ok(s@) == descriptors_parse_ok(s@.skip(pos as int)),
        decreases s@.len() - pos,
    {
        let rest = slice_chars(s, pos, s.len());
        assert(rest@ =~= s@.skip(pos as int));
        let mut best: Option<(usize, usize)> = None;
        let mut j: usize = 0;
        while j < 10
            invariant
                j <= 10,
                rest@.len() > 0,
                descriptors_parse_ok(s@) == descriptors_parse_ok(rest@),
                match best {
                    Some((a, b)) => first_suffix(rest@, j as int) == Some((a as int, b as int)),
                    None => first_suffix(rest@, j as int) is None,
                },
                forall|jj: int| 0 <= jj < j ==> scan_ascii(rest@, #[trigger] suffixes()[jj]),
            decreases 10 - j,
        {
            let suffix = suffix_at(j);
            let found = find_unescaped_suffix(rest.as_slice(), suffix.as_slice());
            proof {
                lemma_find_unescaped_bounds(rest@, suffix@, 0);
            }
            let end = match found {
                Some(idx) => idx,
                None => rest.len(),
            };
            assert(end == scan_end(rest@, suffixes()[j as int]));
            if !ascii_before(rest.as_slice(), end) {
                proof {
                    assert(!scan_ascii(rest@, suffixes()[j as int]));
                    assert(!descriptors_parse_ok(rest@));
                }
                return false;
            }
            assert(scan_ascii(rest@, suffixes()[j as int]));
            match found {
                Some(idx) => {
                    match best {
                        Some((_, b)) => {
                            if idx < b {
                                best = Some((j, idx));
                            }
                        },
                        None => {
                            best = Some((j, idx));
                        },
                    }
                },
                None => {},
            }
            j = j + 1;
        }
        let (j, idx) = match best {
            Some(x) => x,
            None => {
                return true;
            },
        };
        proof {
            lemma_first_suffix_found(rest@, 10);
            lemma_find_unescaped_bounds(rest@, suffixes()[j as int], 0);
        }
        let suffix = suffix_at(j);
        proof {
            let next = rest@.skip(idx + suffix@.len());
            assert(next =~= s@.skip(pos + idx + suffix@.len()));
        }
        pos = pos + idx + suffix.len();
    }
    proof {
        assert(s@.skip(pos as int) =~= Seq::<char>::empty());
    }
    true
}

/// Whether `ScipSymbol::parse` reads `symbol` without slicing inside a character.
pub fn symbol_parses(symbol: &str) -> (r: bool)
    ensures
        r == parse_ok(symbol@),
{
    let chars = str_chars(symbol);
    if str_starts_with(chars.as_slice(), "local ") {
        return true;
    }
    let (_parts, start) = header_parts(&chars, symbol);
    let rest = slice_chars(chars.as_slice(), start, chars.len());
    assert(rest@ =~= descriptor_text(symbol@));
    descriptors_scan_ok(rest.as_slice())
}

impl ScipSymbol {
    /// Parse a SCIP symbol string.
    pub fn parse(symbol: &str) -> (r: Option<ScipSymbol>)
        requires
            parse_ok(symbol@),
        ensures
            match r {
                Some(x) => parse_spec(symbol@) == Some(x.model()),
                None => parse_spec(symbol@) is None,
            },
    {
        let chars = str_chars(symbol);
        let n = chars.len();
        if str_starts_with(chars.as_slice(), "local ") {
            proof {
                reveal_strlit("local ");
            }
            let name = slice_chars(chars.as_slice(), 6, n);
            assert(name@ =~= symbol@.skip(6));
            let d = Descriptor { name: to_string(&name), suffix: "local".to_string() };
            let mut descriptors: Vec<Descriptor> = Vec::new();
            descriptors.push(d);
            let r = ScipSymbol {
                scheme: "local".to_string(),
                package_manager: String::new(),
                package_name: String::new(),
                package_version: String::new(),
                descriptors,
            };
            assert(descriptor_models(r.descriptors@) =~= seq![(symbol@.skip(6), "local"@)]);
            return Some(r);
        }
        let (parts, start) = header_parts(&chars, symbol);
        if parts.len() < 4 {
            return None;
        }
        let rest = slice_chars(chars.as_slice(), start, n);
        assert(rest@ =~= symbol@.skip(start as int));
        let descriptors = parse_descriptors(rest.as_slice());
        let r = ScipSymbol {
            scheme: parts[0].clone(),
            package_manager: parts[1].clone(),
            package_name: parts[2].clone(),
            package_version: parts[3].clone(),
            descriptors,
        };
        Some(r)
    }

    /// The name of the last descriptor (empty without descriptors).
    pub fn name(&self) -> (r: String)
        ensures
            self.descriptors@.len() > 0 ==> r@ == self.descriptors@.last().name@,
            self.descriptors@.len() == 0 ==> r@ == Seq::<char>::empty(),
    {
        if self.descriptors.len() > 0 {
            self.descriptors[self.descriptors.len() - 1].name.clone()
        } else {
            String::new()
        }
    }

    /// The kind of symbol, from the suffix of its last descriptor.
    pub fn infer_type(&self) -> (r: SymbolType)
        ensures
            r == infer_type_spec(self.model()),
    {
        let scheme = str_chars(self.scheme.as_str());
        if str_equals(scheme.as_slice(), "local") {
            return SymbolType::Local;
        }
        let len = self.descriptors.len();
        if len == 0 {
            return SymbolType::Other;
        }
        let ghost m = self.model();
        assert(m.descriptors.len() == len);
        let last = str_chars(self.descriptors[len - 1].suffix.as_str());
        assert(last@ == m.descriptors.last().1);
        if str_equals(last.as_slice(), "().") {
            if len > 1 {
                let parent = str_chars(self.descriptors[len - 2].suffix.as_str());
                assert(parent@ == m.descriptors[len - 2].1);
                if str_equals(parent.as_slice(), "#") {
                    return SymbolType::Method;
                }
            }
            SymbolType::Function
        } else if str_equals(last.as_slice(), "#") {
            SymbolType::Class
        } else if str_equals(last.as_slice(), ".") {
            SymbolType::Variable
        } else if str_equals(last.as_slice(), "/") {
            SymbolType::Namespace
        } else {
            SymbolType::Other
        }
    }
}

} // verus!
