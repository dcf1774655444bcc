use vstd::prelude::*;

verus! {

broadcast use vstd::string::group_string_axioms;

/// The characters of `s`, in order.
pub fn str_chars(s: &str) -> (v: Vec<char>)
    ensures
        v@ == s@,
{
    let mut v: Vec<char> = Vec::new();
    for c in iter: s.chars()
        invariant
            iter.seq() == s@,
            v@ == iter.seq().take(iter.index()),
    {
        v.push(c);
        assert(iter.seq().take(iter.index() + 1) =~= v@);
    }
    v
}

/// `String: FromIterator<&char>`: the string made of the given characters.
#[verifier::external_body]
pub(crate) fn string_from_chars(v: &[char]) -> (s: String)
    ensures
        s@ == v@,
{
    v.iter().collect()
}

// -----------------------------------------------------------------------------
// Unicode classifications (std's tables)
// -----------------------------------------------------------------------------

/// Whether `c` has the Unicode White_Space property (`char::is_whitespace`): tab, line
/// feed, vertical tab, form feed, carriage return, space, next line, no-break space, ogham
/// space mark, the spaces U+2000 to U+200A, line and paragraph separators, narrow no-break
/// space, medium mathematical space and ideographic space.
pub open spec fn is_whitespace_char(c: char) -> bool {
    ||| '\u{9}' <= c <= '\u{D}'
    ||| c == ' '
    ||| c == '\u{85}'
    ||| c == '\u{A0}'
    ||| c == '\u{1680}'
    ||| '\u{2000}' <= c <= '\u{200A}'
    ||| c == '\u{2028}'
    ||| c == '\u{2029}'
    ||| c == '\u{202F}'
    ||| c == '\u{205F}'
    ||| c == '\u{3000}'
}

/// Whether `c` is alphabetic or numeric in Unicode (`char::is_alphanumeric`).
pub uninterp spec fn is_alphanumeric_char(c: char) -> bool;

/// The lowercase form of a string (`str::to_lowercase`, Unicode mapping).
pub uninterp spec fn lowercase(s: Seq<char>) -> Seq<char>;

/// `char::is_whitespace`: whether `c` has the White_Space property.
#[verifier::external_body]
pub(crate) fn char_is_whitespace(c: char) -> (r: bool)
    ensures
        r == is_whitespace_char(c),
{
    c.is_whitespace()
}

/// `char::is_alphanumeric`: Alphabetic or Numeric in Unicode. ASCII letters and digits have
/// it; ASCII punctuation, space and control characters do not.
#[verifier::external_body]
pub(crate) fn char_is_alphanumeric(c: char) -> (r: bool)
    ensures
        r == is_alphanumeric_char(c),
        ('a' <= c <= 'z' || 'A' <= c <= 'Z' || '0' <= c <= '9') ==> r,
        (c <= '\x7F' && !('a' <= c <= 'z' || 'A' <= c <= 'Z' || '0' <= c <= '9')) ==> !r,
{
    c.is_alphanumeric()
}

/// `str::to_lowercase`: the Unicode lowercase mapping of `s`.
#[verifier::external_body]
pub(crate) fn str_to_lowercase(s: &str) -> (r: String)
    ensures
        r@ == lowercase(s@),
{
    s.to_lowercase()
}

// -----------------------------------------------------------------------------
// Sequences of characters
// -----------------------------------------------------------------------------

pub open spec fn is_prefix(p: Seq<char>, s: Seq<char>) -> bool {
    p.len() <= s.len() && s.take(p.len() as int) == p
}

pub open spec fn is_suffix(p: Seq<char>, s: Seq<char>) -> bool {
    p.len() <= s.len() && s.skip(s.len() - p.len()) == p
}

/// `p` occurs in `s` at position `i`.
pub open spec fn occurs_at(s: Seq<char>, p: Seq<char>, i: int) -> bool {
    0 <= i && i + p.len() <= s.len() && s.subrange(i, i + p.len()) == p
}

/// First position at or after `i` where `p` occurs.
pub open spec fn find_from(s: Seq<char>, p: Seq<char>, i: int) -> Option<int>
    decreases s.len() + 1 - i,
{
    if i < 0 || i + p.len() > s.len() {
        None
    } else if occurs_at(s, p, i) {
        Some(i)
    } else {
        find_from(s, p, i + 1)
    }
}

pub proof fn lemma_find_from_bounds(s: Seq<char>, p: Seq<char>, i: int)
    ensures
        find_from(s, p, i) matches Some(j) ==> i <= j && j + p.len() <= s.len() && occurs_at(s, p, j),
        find_from(s, p, i) matches Some(j) ==> forall|k: int| i <= k < j ==> !occurs_at(s, p, k),
        find_from(s, p, i) is None && 0 <= i ==> forall|k: int| i <= k ==> !occurs_at(s, p, k),
    decreases s.len() + 1 - i,
{
    if i < 0 || i + p.len() > s.len() {
    } else if occurs_at(s, p, i) {
    } else {
        lemma_find_from_bounds(s, p, i + 1);
    }
}

/// First position where `p` occurs (`str::find`).
pub open spec fn find_first(s: Seq<char>, p: Seq<char>) -> Option<int> {
    find_from(s, p, 0)
}

pub open spec fn has_substring(s: Seq<char>, p: Seq<char>) -> bool {
    find_first(s, p) is Some
}

/// Last position where `c` occurs (`str::rfind` with a char).
pub open spec fn rfind_char_spec(s: Seq<char>, c: char) -> Option<int>
    decreases s.len(),
{
    if s.len() == 0 {
        None
    } else if s.last() == c {
        Some(s.len() - 1)
    } else {
        rfind_char_spec(s.drop_last(), c)
    }
}

pub proof fn lemma_rfind_char_bounds(s: Seq<char>, c: char)
    ensures
        rfind_char_spec(s, c) matches Some(i) ==> 0 <= i < s.len() && s[i] == c,
        rfind_char_spec(s, c) matches Some(i) ==> forall|k: int| i < k < s.len() ==> s[k] != c,
        rfind_char_spec(s, c) is None ==> forall|k: int| 0 <= k < s.len() ==> s[k] != c,
    decreases s.len(),
{
    if s.len() > 0 && s.last() != c {
        let d = s.drop_last();
        lemma_rfind_char_bounds(d, c);
        assert forall|k: int| 0 <= k < d.len() implies s[k] == d[k] by {}
        assert(s[s.len() - 1] == s.last());
    }
}

/// `str::split` with a char separator.
pub open spec fn split_char_spec(s: Seq<char>, sep: char) -> Seq<Seq<char>>
    decreases s.len(),
{
    match find_first(s, seq![sep]) {
        Some(i) => {
            proof {
                lemma_find_from_bounds(s, seq![sep], 0);
            }
            seq![s.take(i)] + split_char_spec(s.skip(i + 1), sep)
        },
        None => seq![s],
    }
}

/// Leading white space removed (`str::trim_start`).
pub open spec fn trim_start_spec(s: Seq<char>) -> Seq<char>
    decreases s.len(),
{
    if s.len() > 0 && is_whitespace_char(s[0]) {
        trim_start_spec(s.drop_first())
    } else {
        s
    }
}

/// Trailing white space removed (`str::trim_end`).
pub open spec fn trim_end_spec(s: Seq<char>) -> Seq<char>
    decreases s.len(),
{
    if s.len() > 0 && is_whitespace_char(s.last()) {
        trim_end_spec(s.drop_last())
    } else {
        s
    }
}

/// Leading and trailing white space removed (`str::trim`).
pub open spec fn trim_spec(s: Seq<char>) -> Seq<char> {
    trim_end_spec(trim_start_spec(s))
}

/// One line of `str::lines`: the piece before a newline, without a final carriage return.
pub open spec fn strip_cr(line: Seq<char>) -> Seq<char> {
    if line.len() > 0 && line.last() == '\r' {
        line.drop_last()
    } else {
        line
    }
}

/// `str::lines`: split at `\n` (dropping a `\r` just before it); a final line ending is optional.
pub open spec fn lines_spec(s: Seq<char>) -> Seq<Seq<char>>
    decreases s.len(),
{
    if s.len() == 0 {
        Seq::empty()
    } else {
        match find_first(s, seq!['\n']) {
            Some(i) => {
                proof {
                    lemma_find_from_bounds(s, seq!['\n'], 0);
                }
                seq![strip_cr(s.take(i))] + lines_spec(s.skip(i + 1))
            },
            None => seq![s],
        }
    }
}

/// Occurrences of `p` removed left to right, without overlap (`str::replace(p, "")`).
pub open spec fn remove_all_spec(s: Seq<char>, p: Seq<char>) -> Seq<char>
    decreases s.len(),
{
    if p.len() == 0 {
        s
    } else {
        match find_first(s, p) {
            Some(i) => {
                proof {
                    lemma_find_from_bounds(s, p, 0);
                }
                s.take(i) + remove_all_spec(s.skip(i + p.len()), p)
            },
            None => s,
        }
    }
}

/// End of the run of non-white-space characters of `t` starting at `i`.
pub open spec fn word_end(t: Seq<char>, i: int) -> int
    decreases t.len() - i,
{
    if i < 0 {
        0
    } else if i >= t.len() || is_whitespace_char(t[i]) {
        i
    } else {
        word_end(t, i + 1)
    }
}

pub proof fn lemma_word_end(t: Seq<char>, i: int)
    requires
        0 <= i <= t.len(),
    ensures
        i <= word_end(t, i) <= t.len(),
        forall|k: int| i <= k < word_end(t, i) ==> !is_whitespace_char(#[trigger] t[k]),
        word_end(t, i) < t.len() ==> is_whitespace_char(t[word_end(t, i)]),
    decreases t.len() - i,
{
    if i < t.len() && !is_whitespace_char(t[i]) {
        lemma_word_end(t, i + 1);
    }
}

pub proof fn lemma_trim_start(s: Seq<char>)
    ensures
        trim_start_spec(s).len() <= s.len(),
        trim_start_spec(s) == s.skip(s.len() - trim_start_spec(s).len()),
        trim_start_spec(s).len() > 0 ==> !is_whitespace_char(trim_start_spec(s)[0]),
        forall|k: int| 0 <= k < s.len() - trim_start_spec(s).len() ==> is_whitespace_char(#[trigger] s[k]),
    decreases s.len(),
{
    if s.len() > 0 && is_whitespace_char(s[0]) {
        lemma_trim_start(s.drop_first());
        let t = trim_start_spec(s.drop_first());
        assert(s.drop_first().skip(s.drop_first().len() - t.len()) =~= s.skip(s.len() - t.len()));
        assert forall|k: int| 0 <= k < s.len() - t.len() implies is_whitespace_char(#[trigger] s[k]) by {
            if k > 0 {
                assert(s[k] == s.drop_first()[k - 1]);
            }
        }
    } else {
        assert(s.skip(0) =~= s);
    }
}

/// The non-empty white-space separated words (`str::split_whitespace`).
pub open spec fn words_spec(s: Seq<char>) -> Seq<Seq<char>>
    decreases s.len(),
{
    let t = trim_start_spec(s);
    if t.len() == 0 {
        Seq::empty()
    } else {
        let w = word_end(t, 0);
        proof {
            lemma_trim_start(s);
            lemma_word_end(t, 0);
        }
        seq![t.take(w)] + words_spec(t.skip(w))
    }
}

// -----------------------------------------------------------------------------
// Executable character-sequence operations
// -----------------------------------------------------------------------------

pub open spec fn deep_chars(v: Seq<Vec<char>>) -> Seq<Seq<char>> {
    v.map_values(|x: Vec<char>| x@)
}

/// `find_from` on a suffix equals `find_from` on the whole, shifted.
pub proof fn lemma_find_skip(s: Seq<char>, p: Seq<char>, j: int, i: int)
    requires
        0 <= j <= s.len(),
        0 <= i,
    ensures
        find_from(s.skip(j), p, i) == (match find_from(s, p, i + j) {
            Some(x) => Some(x - j),
            None => None::<int>,
        }),
    decreases s.len() + 1 - i - j,
{
    let t = s.skip(j);
    if i + p.len() > t.len() {
    } else {
        assert(t.subrange(i, i + p.len()) =~= s.subrange(i + j, i + j + p.len()));
        if !occurs_at(t, p, i) {
            lemma_find_skip(s, p, j, i + 1);
        }
    }
}

pub fn occurs_at_exec(s: &[char], p: &[char], i: usize) -> (r: bool)
    ensures
        r == occurs_at(s@, p@, i as int),
{
    if i > s.len() || p.len() > s.len() - i {
        return false;
    }
    let mut k: usize = 0;
    while k < p.len()
        invariant
            i + p@.len() <= s@.len(),
            s@.len() == s.len(),
            k <= p@.len(),
            forall|m: int| 0 <= m < k ==> s@[i + m] == p@[m],
        decreases p@.len() - k,
    {
        assert(i + k < s@.len());
        if s[i + k] != p[k] {
            assert(s@.subrange(i as int, i + p@.len())[k as int] != p@[k as int]);
            return false;
        }
        k = k + 1;
    }
    assert(s@.subrange(i as int, i + p@.len()) =~= p@);
    true
}

pub fn find_from_exec(s: &[char], p: &[char], i: usize) -> (r: Option<usize>)
    ensures
        match r {
            Some(x) => find_from(s@, p@, i as int) == Some(x as int),
            None => find_from(s@, p@, i as int) is None,
        },
{
    if i > s.len() {
        return None;
    }
    let mut j = i;
    while p.len() <= s.len() - j
        invariant
            i <= j <= s@.len(),
            find_from(s@, p@, i as int) == find_from(s@, p@, j as int),
        decreases s@.len() + 1 - j,
    {
        if occurs_at_exec(s, p, j) {
            return Some(j);
        }
        if j == s.len() {
            assert(find_from(s@, p@, j + 1) is None);
            return None;
        }
        j = j + 1;
    }
    None
}

pub fn find(s: &[char], p: &[char]) -> (r: Option<usize>)
    ensures
        match r {
            Some(x) => find_first(s@, p@) == Some(x as int),
            None => find_first(s@, p@) is None,
        },
{
    find_from_exec(s, p, 0)
}

pub fn contains(s: &[char], p: &[char]) -> (r: bool)
    ensures
        r == has_substring(s@, p@),
{
    find(s, p).is_some()
}

pub fn starts_with(s: &[char], p: &[char]) -> (r: bool)
    ensures
        r == is_prefix(p@, s@),
{
    if p.len() > s.len() {
        return false;
    }
    let r = occurs_at_exec(s, p, 0);
    assert(s@.subrange(0, p@.len() as int) =~= s@.take(p@.len() as int));
    r
}

pub fn ends_with(s: &[char], p: &[char]) -> (r: bool)
    ensures
        r == is_suffix(p@, s@),
{
    if p.len() > s.len() {
        return false;
    }
    let r = occurs_at_exec(s, p, s.len() - p.len());
    assert(s@.subrange(s@.len() - p@.len(), s@.len() as int) =~= s@.skip(s@.len() - p@.len()));
    r
}

pub fn find_char(s: &[char], c: char) -> (r: Option<usize>)
    ensures
        match r {
            Some(x) => find_first(s@, seq![c]) == Some(x as int),
            None => find_first(s@, seq![c]) is None,
        },
{
    let p = [c];
    assert(p@ =~= seq![c]);
    find(s, &p)
}

pub fn rfind_char(s: &[char], c: char) -> (r: Option<usize>)
    ensures
        match r {
            Some(x) => rfind_char_spec(s@, c) == Some(x as int) && x < s@.len(),
            None => rfind_char_spec(s@, c) is None,
        },
{
    proof {
        lemma_rfind_char_bounds(s@, c);
    }
    let mut j = s.len();
    assert(s@.take(s@.len() as int) =~= s@);
    while j > 0
        invariant
            j <= s@.len(),
            rfind_char_spec(s@, c) == rfind_char_spec(s@.take(j as int), c),
        decreases j,
    {
        assert(s@.take(j as int).last() == s@[j - 1]);
        if s[j - 1] == c {
            return Some(j - 1);
        }
        assert(s@.take(j as int).drop_last() =~= s@.take(j - 1));
        j = j - 1;
    }
    None
}

/// A copy of `s[from..to]`.
pub fn slice_chars(s: &[char], from: usize, to: usize) -> (r: Vec<char>)
    requires
        from <= to <= s@.len(),
    ensures
        r@ == s@.subrange(from as int, to as int),
{
    let mut r: Vec<char> = Vec::new();
    let mut k = from;
    while k < to
        invariant
            from <= k <= to,
            to <= s@.len(),
            r@ == s@.subrange(from as int, k as int),
        decreases to - k,
    {
        r.push(s[k]);
        assert(r@ =~= s@.subrange(from as int, k + 1));
        k = k + 1;
    }
    r
}

pub fn split_char(s: &[char], sep: char) -> (r: Vec<Vec<char>>)
    ensures
        deep_chars(r@) == split_char_spec(s@, sep),
{
    let mut r: Vec<Vec<char>> = Vec::new();
    let mut start: usize = 0;
    let p = [sep];
    assert(p@ =~= seq![sep]);
    assert(s@.skip(0) =~= s@);
    loop
        invariant
            start <= s@.len(),
            p@ == seq![sep],
            s@.len() == s.len(),
            deep_chars(r@) + split_char_spec(s@.skip(start as int), sep) == split_char_spec(s@, sep),
        decreases s@.len() - start,
    {
        let ghost t = s@.skip(start as int);
        proof {
            lemma_find_skip(s@, seq![sep], start as int, 0);
            lemma_find_from_bounds(s@, seq![sep], start as int);
        }
        match find_from_exec(s, &p, start) {
            Some(i) => {
                let piece = slice_chars(s, start, i);
                proof {
                    assert(t.take(i - start) =~= piece@);
                    assert(t.skip(i - start + 1) =~= s@.skip(i + 1));
                    assert(deep_chars(r@.push(piece)) =~= deep_chars(r@).push(piece@));
                    assert(i + 1 <= s@.len());
                }
                r.push(piece);
                start = i + 1;
            },
            None => {
                let piece = slice_chars(s, start, s.len());
                proof {
                    assert(t =~= piece@);
                    assert(deep_chars(r@.push(piece)) =~= deep_chars(r@).push(piece@));
                }
                r.push(piece);
                return r;
            },
        }
    }
}

pub fn trim_start(s: &[char]) -> (r: Vec<char>)
    ensures
        r@ == trim_start_spec(s@),
{
    let mut i: usize = 0;
    assert(s@.skip(0) =~= s@);
    while i < s.len() && char_is_whitespace(s[i])
        invariant
            i <= s@.len(),
            trim_start_spec(s@) == trim_start_spec(s@.skip(i as int)),
        decreases s@.len() - i,
    {
        assert(s@.skip(i as int).drop_first() =~= s@.skip(i + 1));
        i = i + 1;
    }
    let r = slice_chars(s, i, s.len());
    assert(r@ =~= s@.skip(i as int));
    r
}

pub fn trim_end(s: &[char]) -> (r: Vec<char>)
    ensures
        r@ == trim_end_spec(s@),
{
    let mut j: usize = s.len();
    assert(s@.take(s@.len() as int) =~= s@);
    while j > 0 && char_is_whitespace(s[j - 1])
        invariant
            j <= s@.len(),
            trim_end_spec(s@) == trim_end_spec(s@.take(j as int)),
        decreases j,
    {
        assert(s@.take(j as int).drop_last() =~= s@.take(j - 1));
        j = j - 1;
    }
    let r = slice_chars(s, 0, j);
    assert(r@ =~= s@.take(j as int));
    r
}

pub fn trim(s: &[char]) -> (r: Vec<char>)
    ensures
        r@ == trim_spec(s@),
{
    let a = trim_start(s);
    trim_end(a.as_slice())
}

pub fn lines(s: &[char]) -> (r: Vec<Vec<char>>)
    ensures
        deep_chars(r@) == lines_spec(s@),
{
    let mut r: Vec<Vec<char>> = Vec::new();
    let mut start: usize = 0;
    let p = ['\n'];
    assert(p@ =~= seq!['\n']);
    assert(s@.skip(0) =~= s@);
    while start < s.len()
        invariant
            start <= s@.len(),
            p@ == seq!['\n'],
            s@.len() == s.len(),
            deep_chars(r@) + lines_spec(s@.skip(start as int)) == lines_spec(s@),
        decreases s@.len() - start,
    {
        let ghost t = s@.skip(start as int);
        proof {
            lemma_find_skip(s@, seq!['\n'], start as int, 0);
            lemma_find_from_bounds(s@, seq!['\n'], start as int);
        }
        match find_from_exec(s, &p, start) {
            Some(i) => {
                let end = if i > start && s[i - 1] == '\r' {
                    i - 1
                } else {
                    i
                };
                let piece = slice_chars(s, start, end);
                proof {
                    assert(strip_cr(t.take(i - start)) =~= piece@);
                    assert(t.skip(i - start + 1) =~= s@.skip(i + 1));
                    assert(deep_chars(r@.push(piece)) =~= deep_chars(r@).push(piece@));
                    assert(i + 1 <= s@.len());
                }
                r.push(piece);
                start = i + 1;
            },
            None => {
                let piece = slice_chars(s, start, s.len());
                proof {
                    assert(t =~= piece@);
                    assert(deep_chars(r@.push(piece)) =~= deep_chars(r@).push(piece@));
                    assert(lines_spec(s@.skip(s@.len() as int)) =~= Seq::<Seq<char>>::empty());
                }
                r.push(piece);
                start = s.len();
            },
        }
    }
    proof {
        assert(s@.skip(start as int) =~= Seq::<char>::empty());
        assert(deep_chars(r@) + lines_spec(s@.skip(start as int)) =~= deep_chars(r@));
    }
    r
}

pub fn remove_all(s: &[char], p: &[char]) -> (r: Vec<char>)
    ensures
        r@ == remove_all_spec(s@, p@),
{
    if p.len() == 0 {
        return slice_chars(s, 0, s.len());
    }
    let mut r: Vec<char> = Vec::new();
    let mut start: usize = 0;
    assert(s@.skip(0) =~= s@);
    loop
        invariant
            start <= s@.len(),
            p@.len() > 0,
            s@.len() == s.len(),
            r@ + remove_all_spec(s@.skip(start as int), p@) == remove_all_spec(s@, p@),
        decreases s@.len() - start,
    {
        let ghost t = s@.skip(start as int);
        let ghost before = r@;
        proof {
            lemma_find_skip(s@, p@, start as int, 0);
            lemma_find_from_bounds(s@, p@, start as int);
        }
        match find_from_exec(s, p, start) {
            Some(i) => {
                let mut piece = slice_chars(s, start, i);
                proof {
                    assert(t.take(i - start) =~= piece@);
                    assert(t.skip(i - start + p@.len()) =~= s@.skip(i + p@.len()));
                }
                r.append(&mut piece);
                proof {
                    assert(i + p@.len() <= s@.len());
                    assert(remove_all_spec(t, p@) == t.take(i - start) + remove_all_spec(
                        s@.skip(i + p@.len()),
                        p@,
                    ));
                    assert(r@ + remove_all_spec(s@.skip(i + p@.len()), p@) =~= before
                        + remove_all_spec(t, p@));
                }
                start = i + p.len();
            },
            None => {
                let mut piece = slice_chars(s, start, s.len());
                assert(t =~= piece@);
                r.append(&mut piece);
                assert(r@ =~= before + t);
                return r;
            },
        }
    }
}

/// Number of white-space separated words (`str::split_whitespace().count()`).
pub fn count_words(s: &[char]) -> (n: usize)
    ensures
        n == words_spec(s@).len(),
{
    let mut n: usize = 0;
    let mut i: usize = 0;
    assert(s@.skip(0) =~= s@);
    while i < s.len()
        invariant
            i <= s@.len(),
            n <= i,
            n + words_spec(s@.skip(i as int)).len() == words_spec(s@).len(),
        decreases s@.len() - i,
    {
        // skip white space
        let ghost u = s@.skip(i as int);
        let mut j = i;
        while j < s.len() && char_is_whitespace(s[j])
            invariant
                i <= j <= s@.len(),
                trim_start_spec(u) == trim_start_spec(s@.skip(j as int)),
            decreases s@.len() - j,
        {
            assert(s@.skip(j as int).drop_first() =~= s@.skip(j + 1));
            j = j + 1;
        }
        proof {
            assert(trim_start_spec(s@.skip(j as int)) == s@.skip(j as int) || j < s@.len());
        }
        if j == s.len() {
            proof {
                assert(s@.skip(j as int) =~= Seq::<char>::empty());
                assert(trim_start_spec(u).len() == 0);
            }
            i = j;
        } else {
            let ghost t = s@.skip(j as int);
            assert(trim_start_spec(t) == t);
            let mut k = j;
            while k < s.len() && !char_is_whitespace(s[k])
                invariant
                    j <= k <= s@.len(),
                    t == s@.skip(j as int),
                    word_end(t, 0) == word_end(t, k - j),
                decreases s@.len() - k,
            {
                assert(t[k - j] == s@[k as int]);
                k = k + 1;
            }
            proof {
                if k < s@.len() {
                    assert(t[k - j] == s@[k as int]);
                }
                lemma_word_end(t, 0);
                assert(t.skip(k - j) =~= s@.skip(k as int));
            }
            n = n + 1;
            i = k;
        }
    }
    proof {
        assert(s@.skip(i as int) =~= Seq::<char>::empty());
    }
    n
}

/// The white-space separated words (`str::split_whitespace`).
pub fn split_words(s: &[char]) -> (r: Vec<Vec<char>>)
    ensures
        deep_chars(r@) == words_spec(s@),
{
    let mut r: Vec<Vec<char>> = Vec::new();
    let mut i: usize = 0;
    assert(s@.skip(0) =~= s@);
    assert(deep_chars(r@) + words_spec(s@) =~= words_spec(s@));
    while i < s.len()
        invariant
            i <= s@.len(),
            s@.len() == s.len(),
            deep_chars(r@) + words_spec(s@.skip(i as int)) == words_spec(s@),
        decreases s@.len() - i,
    {
        let ghost u = s@.skip(i as int);
        let mut j = i;
        while j < s.len() && char_is_whitespace(s[j])
            invariant
                i <= j <= s@.len(),
                trim_start_spec(u) == trim_start_spec(s@.skip(j as int)),
            decreases s@.len() - j,
        {
            assert(s@.skip(j as int).drop_first() =~= s@.skip(j + 1));
            j = j + 1;
        }
        if j == s.len() {
            proof {
                assert(s@.skip(j as int) =~= Seq::<char>::empty());
                assert(trim_start_spec(u).len() == 0);
                assert(words_spec(u) =~= Seq::<Seq<char>>::empty());
                assert(s@.skip(j as int) =~= Seq::<char>::empty());
            }
            i = j;
            assert(deep_chars(r@) + words_spec(s@.skip(i as int)) =~= deep_chars(r@) + words_spec(u));
        } else {
            let ghost t = s@.skip(j as int);
            assert(trim_start_spec(t) == t);
            let mut k = j;
            while k < s.len() && !char_is_whitespace(s[k])
                invariant
                    j <= k <= s@.len(),
                    t == s@.skip(j as int),
                    word_end(t, 0) == word_end(t, k - j),
                decreases s@.len() - k,
            {
                assert(t[k - j] == s@[k as int]);
                k = k + 1;
            }
            proof {
                if k < s@.len() {
                    assert(t[k - j] == s@[k as int]);
                }
                lemma_word_end(t, 0);
                assert(t.skip(k - j) =~= s@.skip(k as int));
            }
            let w = slice_chars(s, j, k);
            let ghost before = r@;
            r.push(w);
            proof {
                assert(t.take(k - j) =~= w@);
                assert(words_spec(u) == seq![w@] + words_spec(s@.skip(k as int)));
                assert(deep_chars(r@) =~= deep_chars(before).push(w@));
                assert(deep_chars(r@) + words_spec(s@.skip(k as int)) =~= deep_chars(before) + words_spec(u));
            }
            i = k;
        }
    }
    proof {
        assert(s@.skip(i as int) =~= Seq::<char>::empty());
        assert(deep_chars(r@) + words_spec(s@.skip(i as int)) =~= deep_chars(r@));
    }
    r
}

/// Strict lexicographic order by code point (the order of `str::cmp`, since UTF-8 preserves
/// code point order).
pub open spec fn seq_lex_less(a: Seq<char>, b: Seq<char>) -> bool
    decreases a.len(),
{
    if a.len() == 0 {
        b.len() > 0
    } else if b.len() == 0 {
        false
    } else if (a[0] as u32) < (b[0] as u32) {
        true
    } else if a[0] == b[0] {
        seq_lex_less(a.drop_first(), b.drop_first())
    } else {
        false
    }
}

pub fn lex_less(a: &[char], b: &[char]) -> (r: bool)
    ensures
        r == seq_lex_less(a@, b@),
{
    let mut i: usize = 0;
    assert(a@.skip(0) =~= a@);
    assert(b@.skip(0) =~= b@);
    while i < a.len() && i < b.len()
        invariant
            i <= a@.len(),
            i <= b@.len(),
            seq_lex_less(a@, b@) == seq_lex_less(a@.skip(i as int), b@.skip(i as int)),
        decreases a@.len() - i,
    {
        let x = a[i];
        let y = b[i];
        assert(a@.skip(i as int)[0] == x);
        assert(b@.skip(i as int)[0] == y);
        if (x as u32) < (y as u32) {
            return true;
        }
        if x != y {
            return false;
        }
        assert(a@.skip(i as int).drop_first() =~= a@.skip(i as int + 1));
        assert(b@.skip(i as int).drop_first() =~= b@.skip(i as int + 1));
        i = i + 1;
    }
    i < b.len()
}

// -----------------------------------------------------------------------------
// UTF-8 lengths
// -----------------------------------------------------------------------------

/// Number of bytes of `c` in UTF-8.
pub open spec fn utf8_len(c: char) -> nat {
    if (c as u32) < 0x80 {
        1
    } else if (c as u32) < 0x800 {
        2
    } else if (c as u32) < 0x10000 {
        3
    } else {
        4
    }
}

/// Number of bytes of `s` in UTF-8 (`str::len`).
pub open spec fn byte_len(s: Seq<char>) -> nat
    decreases s.len(),
{
    if s.len() == 0 {
        0
    } else {
        byte_len(s.drop_last()) + utf8_len(s.last())
    }
}

pub fn char_utf8_len(c: char) -> (r: u8)
    ensures
        r == utf8_len(c),
{
    let v = c as u32;
    if v < 0x80 {
        1
    } else if v < 0x800 {
        2
    } else if v < 0x10000 {
        3
    } else {
        4
    }
}

/// The UTF-8 length of `s`, truncated to 32 bits (`s.len() as u32`).
pub fn byte_len_u32(s: &[char]) -> (r: u32)
    ensures
        r == byte_len(s@) as u32,
{
    let mut total: u128 = 0;
    let mut i: usize = 0;
    while i < s.len()
        invariant
            i <= s@.len(),
            s@.len() == s.len(),
            total == byte_len(s@.take(i as int)),
            total <= 4 * i,
        decreases s@.len() - i,
    {
        assert(s@.take(i as int + 1).drop_last() =~= s@.take(i as int));
        total = total + char_utf8_len(s[i]) as u128;
        i = i + 1;
    }
    assert(s@.take(i as int) =~= s@);
    total as u32
}

/// A sequence that starts with `c` finds `c` first at position 0.
pub proof fn lemma_find_first_at_start(s: Seq<char>, c: char)
    requires
        s.len() > 0,
        s[0] == c,
    ensures
        find_first(s, seq![c]) == Some(0int),
{
    assert(s.subrange(0, 1) =~= seq![c]);
}

/// The UTF-8 length of `s` (`str::len`).
pub fn byte_length(s: &[char]) -> (r: u128)
    ensures
        r == byte_len(s@),
{
    let mut total: u128 = 0;
    let mut i: usize = 0;
    while i < s.len()
        invariant
            i <= s@.len(),
            s@.len() == s.len(),
            total == byte_len(s@.take(i as int)),
            total <= 4 * i,
        decreases s@.len() - i,
    {
        assert(s@.take(i as int + 1).drop_last() =~= s@.take(i as int));
        total = total + char_utf8_len(s[i]) as u128;
        i = i + 1;
    }
    assert(s@.take(i as int) =~= s@);
    total
}

/// The char position at which byte offset `b` of `line` falls, when `b` is a char boundary.
pub open spec fn char_index_of_byte(line: Seq<char>, b: int) -> Option<int>
    decreases line.len(),
{
    if b == 0 {
        Some(0)
    } else if b < 0 || line.len() == 0 || b < utf8_len(line[0]) {
        None
    } else {
        match char_index_of_byte(line.drop_first(), b - utf8_len(line[0])) {
            Some(k) => Some(k + 1),
            None => None,
        }
    }
}

pub proof fn lemma_char_index_of_byte_bound(line: Seq<char>, b: int)
    ensures
        char_index_of_byte(line, b) matches Some(k) ==> 0 <= k <= line.len(),
    decreases line.len(),
{
    if b != 0 && !(b < 0 || line.len() == 0 || b < utf8_len(line[0])) {
        lemma_char_index_of_byte_bound(line.drop_first(), b - utf8_len(line[0]));
    }
}

/// The char position of byte offset `b` of `line` (`None` off a char boundary).
pub fn char_index_at_byte(line: &[char], b: u128) -> (r: Option<usize>)
    ensures
        match r {
            Some(k) => char_index_of_byte(line@, b as int) == Some(k as int) && k <= line@.len(),
            None => char_index_of_byte(line@, b as int) is None,
        },
{
    let mut k: usize = 0;
    let mut acc: u128 = 0;
    assert(line@.skip(0) =~= line@);
    while k < line.len() && acc < b
        invariant
            k <= line@.len(),
            line@.len() == line.len(),
            acc <= b,
            char_index_of_byte(line@, b as int) == (match char_index_of_byte(line@.skip(k as int), b - acc) {
                Some(x) => Some(x + k),
                None => None::<int>,
            }),
        decreases line@.len() - k,
    {
        let c = line[k];
        let n = char_utf8_len(c) as u128;
        assert(line@.skip(k as int)[0] == c);
        if b - acc < n {
            return None;
        }
        assert(line@.skip(k as int).drop_first() =~= line@.skip(k as int + 1));
        acc = acc + n;
        k = k + 1;
    }
    if acc == b {
        Some(k)
    } else {
        assert(line@.skip(k as int).len() == 0);
        None
    }
}

/// Whether two character sequences are equal.
pub fn chars_eq(a: &[char], b: &[char]) -> (r: bool)
    ensures
        r == (a@ == b@),
{
    if a.len() != b.len() {
        return false;
    }
    let mut i: usize = 0;
    while i < a.len()
        invariant
            i <= a@.len(),
            a@.len() == b@.len(),
            forall|k: int| 0 <= k < i ==> a@[k] == b@[k],
        decreases a@.len() - i,
    {
        if a[i] != b[i] {
            return false;
        }
        i = i + 1;
    }
    assert(a@ =~= b@);
    true
}

/// The text after the last `c` (all of `s` without one): `s.split(c).next_back()`.
pub open spec fn after_last(s: Seq<char>, c: char) -> Seq<char> {
    match rfind_char_spec(s, c) {
        Some(i) => s.skip(i + 1),
        None => s,
    }
}

pub fn after_last_exec(s: &[char], c: char) -> (r: Vec<char>)
    ensures
        r@ == after_last(s@, c),
{
    let n = s.len();
    match rfind_char(s, c) {
        Some(i) => {
            assert(i < n);
            let r = slice_chars(s, i + 1, n);
            assert(r@ =~= s@.skip(i + 1));
            r
        },
        None => {
            let r = slice_chars(s, 0, n);
            assert(r@ =~= s@);
            r
        },
    }
}

/// `str::contains` with a string pattern.
pub fn str_contains(s: &[char], p: &str) -> (r: bool)
    ensures
        r == has_substring(s@, p@),
{
    let pc = str_chars(p);
    contains(s, pc.as_slice())
}

/// `str::starts_with` with a string pattern.
pub fn str_starts_with(s: &[char], p: &str) -> (r: bool)
    ensures
        r == is_prefix(p@, s@),
{
    let pc = str_chars(p);
    starts_with(s, pc.as_slice())
}

/// `str::ends_with` with a string pattern.
pub fn str_ends_with(s: &[char], p: &str) -> (r: bool)
    ensures
        r == is_suffix(p@, s@),
{
    let pc = str_chars(p);
    ends_with(s, pc.as_slice())
}

/// Whether `s` equals the string `p`.
pub fn str_equals(s: &[char], p: &str) -> (r: bool)
    ensures
        r == (s@ == p@),
{
    let pc = str_chars(p);
    chars_eq(s, pc.as_slice())
}

/// Occurrences of `p` replaced by `r`, left to right, without overlap (`str::replace`), for a
/// non-empty `p`.
pub open spec fn replace_all_spec(s: Seq<char>, p: Seq<char>, r: Seq<char>) -> Seq<char>
    decreases s.len(),
{
    if p.len() == 0 {
        s
    } else {
        match find_first(s, p) {
            Some(i) => {
                proof {
                    lemma_find_from_bounds(s, p, 0);
                }
                s.take(i) + r + replace_all_spec(s.skip(i + p.len()), p, r)
            },
            None => s,
        }
    }
}

pub fn replace_all(s: &[char], p: &[char], r: &[char]) -> (out: Vec<char>)
    requires
        p@.len() > 0,
    ensures
        out@ == replace_all_spec(s@, p@, r@),
{
    let mut out: Vec<char> = Vec::new();
    let mut start: usize = 0;
    assert(s@.skip(0) =~= s@);
    loop
        invariant
            start <= s@.len(),
            p@.len() > 0,
            s@.len() == s.len(),
            out@ + replace_all_spec(s@.skip(start as int), p@, r@) == replace_all_spec(s@, p@, r@),
        decreases s@.len() - start,
    {
        let ghost t = s@.skip(start as int);
        let ghost before = out@;
        proof {
            lemma_find_skip(s@, p@, start as int, 0);
            lemma_find_from_bounds(s@, p@, start as int);
        }
        match find_from_exec(s, p, start) {
            Some(i) => {
                let mut piece = slice_chars(s, start, i);
                let mut rep = slice_chars(r, 0, r.len());
                proof {
                    assert(t.take(i - start) =~= piece@);
                    assert(rep@ =~= r@);
                    assert(t.skip(i - start + p@.len()) =~= s@.skip(i + p@.len()));
                }
                out.append(&mut piece);
                out.append(&mut rep);
                proof {
                    assert(i + p@.len() <= s@.len());
                    assert(replace_all_spec(t, p@, r@) == t.take(i - start) + r@ + replace_all_spec(
                        s@.skip(i + p@.len()),
                        p@,
                        r@,
                    ));
                    assert(out@ + replace_all_spec(s@.skip(i + p@.len()), p@, r@) =~= before
                        + replace_all_spec(t, p@, r@));
                }
                start = i + p.len();
            },
            None => {
                let mut piece = slice_chars(s, start, s.len());
                assert(t =~= piece@);
                out.append(&mut piece);
                assert(out@ =~= before + t);
                return out;
            },
        }
    }
}

/// `s` without the leading and trailing `c` characters (`str::trim_matches` with a char).
pub open spec fn trim_matches_spec(s: Seq<char>, c: char) -> Seq<char>
    decreases s.len(),
{
    if s.len() > 0 && s[0] == c {
        trim_matches_spec(s.drop_first(), c)
    } else if s.len() > 0 && s.last() == c {
        trim_matches_spec(s.drop_last(), c)
    } else {
        s
    }
}

pub fn trim_matches_char(s: &[char], c: char) -> (r: Vec<char>)
    ensures
        r@ == trim_matches_spec(s@, c),
{
    let mut a: usize = 0;
    let mut b: usize = s.len();
    assert(s@.subrange(0, s@.len() as int) =~= s@);
    while a < b && (s[a] == c || s[b - 1] == c)
        invariant
            a <= b <= s@.len(),
            trim_matches_spec(s@, c) == trim_matches_spec(s@.subrange(a as int, b as int), c),
        decreases b - a,
    {
        let ghost t = s@.subrange(a as int, b as int);
        if s[a] == c {
            assert(t[0] == s@[a as int]);
            assert(t.drop_first() =~= s@.subrange(a + 1, b as int));
            a = a + 1;
        } else {
            assert(t[0] == s@[a as int]);
            assert(t.last() == s@[b - 1]);
            assert(t.drop_last() =~= s@.subrange(a as int, b - 1));
            b = b - 1;
        }
    }
    let r = slice_chars(s, a, b);
    proof {
        let t = s@.subrange(a as int, b as int);
        if t.len() > 0 {
            assert(t[0] == s@[a as int]);
            assert(t.last() == s@[b - 1]);
        }
    }
    r
}

/// The UTF-8 length counted from the front.
pub proof fn lemma_byte_len_front(x: Seq<char>)
    requires
        x.len() > 0,
    ensures
        byte_len(x) == utf8_len(x[0]) + byte_len(x.drop_first()),
    decreases x.len(),
{
    if x.len() == 1 {
        assert(x.drop_last() =~= Seq::<char>::empty());
        assert(x.drop_first() =~= Seq::<char>::empty());
    } else {
        lemma_byte_len_front(x.drop_last());
        assert(x.drop_last().drop_first() =~= x.drop_first().drop_last());
        assert(x.drop_first().last() == x.last());
        assert(x.drop_last()[0] == x[0]);
    }
}

/// The byte offset of a char position is a char boundary that leads back to that position.
pub proof fn lemma_char_index_of_prefix(s: Seq<char>, k: int)
    requires
        0 <= k <= s.len(),
    ensures
        char_index_of_byte(s, byte_len(s.take(k)) as int) == Some(k),
    decreases k,
{
    if k == 0 {
        assert(s.take(0) =~= Seq::<char>::empty());
    } else {
        lemma_byte_len_front(s.take(k));
        assert(s.take(k).drop_first() =~= s.drop_first().take(k - 1));
        assert(s.take(k)[0] == s[0]);
        lemma_char_index_of_prefix(s.drop_first(), k - 1);
    }
}

/// `s` without its trailing `c` characters (`str::trim_end_matches` with a char).
pub open spec fn trim_end_matches_spec(s: Seq<char>, c: char) -> Seq<char>
    decreases s.len(),
{
    if s.len() > 0 && s.last() == c {
        trim_end_matches_spec(s.drop_last(), c)
    } else {
        s
    }
}

pub fn trim_end_matches_char(s: &[char], c: char) -> (r: Vec<char>)
    ensures
        r@ == trim_end_matches_spec(s@, c),
{
    let mut j: usize = s.len();
    assert(s@.take(s@.len() as int) =~= s@);
    while j > 0 && s[j - 1] == c
        invariant
            j <= s@.len(),
            trim_end_matches_spec(s@, c) == trim_end_matches_spec(s@.take(j as int), c),
        decreases j,
    {
        assert(s@.take(j as int).drop_last() =~= s@.take(j - 1));
        j = j - 1;
    }
    let r = slice_chars(s, 0, j);
    assert(r@ =~= s@.take(j as int));
    r
}

/// `s` without the prefix `p`, when it starts with it (`str::strip_prefix`, else `s`).
pub open spec fn strip_prefix_or_keep(s: Seq<char>, p: Seq<char>) -> Seq<char> {
    if is_prefix(p, s) {
        s.skip(p.len() as int)
    } else {
        s
    }
}

pub fn strip_prefix_or_keep_exec(s: &[char], p: &str) -> (r: Vec<char>)
    ensures
        r@ == strip_prefix_or_keep(s@, p@),
{
    let pc = str_chars(p);
    if starts_with(s, pc.as_slice()) {
        let r = slice_chars(s, pc.len(), s.len());
        assert(r@ =~= s@.skip(p@.len() as int));
        r
    } else {
        let r = slice_chars(s, 0, s.len());
        assert(r@ =~= s@);
        r
    }
}

} // verus!
