//! Token-count size function.
use crate::domain::node::SourceSpan;
use crate::domain::policy::{strings_view, SizeFunction};
use crate::text::{
    byte_len, byte_length, char_index_at_byte, char_index_of_byte, char_is_alphanumeric,
    deep_chars, is_alphanumeric_char, is_prefix, lemma_char_index_of_byte_bound, lines,
    lines_spec, remove_all, remove_all_spec, slice_chars, split_words, starts_with, str_chars,
    trim, trim_spec, words_spec,
};
use vstd::prelude::*;

verus! {

// -----------------------------------------------------------------------------
// Specification
// -----------------------------------------------------------------------------

pub open spec fn min_int(a: int, b: int) -> int {
    if a <= b {
        a
    } else {
        b
    }
}

/// `line[a..b]` for byte offsets `a` and `b`.
pub open spec fn slice_bytes(line: Seq<char>, a: int, b: int) -> Seq<char> {
    line.subrange(char_index_of_byte(line, a)->0, char_index_of_byte(line, b)->0)
}

/// Lines `from .. to` of `ls`, each followed by a newline.
pub open spec fn lines_with_newlines(ls: Seq<Seq<char>>, from: int, to: int) -> Seq<char>
    decreases to - from,
{
    if from >= to {
        Seq::empty()
    } else {
        lines_with_newlines(ls, from, to - 1) + ls[to - 1] + seq!['\n']
    }
}

/// The code text that `span` covers in `source` (0-based lines, byte columns), or the empty
/// text when the span starts after the last line.
pub open spec fn span_text(source: Seq<char>, span: SourceSpan) -> Seq<char> {
    let ls = lines_spec(source);
    let n = ls.len() as int;
    let s = span.start_line as int;
    let sc = span.start_column as int;
    if s >= n {
        Seq::empty()
    } else {
        let e = min_int(span.end_line as int, n - 1);
        if s == e {
            let line = ls[s];
            let ec = min_int(span.end_column as int, byte_len(line) as int);
            if sc < byte_len(line) {
                slice_bytes(line, sc, ec)
            } else {
                Seq::empty()
            }
        } else {
            let first = ls[s];
            let head = if sc < byte_len(first) {
                first.skip(char_index_of_byte(first, sc)->0)
            } else {
                Seq::empty()
            };
            let last = ls[e];
            let ec = min_int(span.end_column as int, byte_len(last) as int);
            head + seq!['\n'] + lines_with_newlines(ls, s + 1, e) + last.take(
                char_index_of_byte(last, ec)->0,
            )
        }
    }
}

/// The spans on which the size is defined: the byte columns that cut a line fall on char
/// boundaries, and a single-line span does not end before it starts.
pub open spec fn span_cuts_ok(source: Seq<char>, span: SourceSpan) -> bool {
    let ls = lines_spec(source);
    let n = ls.len() as int;
    let s = span.start_line as int;
    let sc = span.start_column as int;
    s >= n || {
        let e = min_int(span.end_line as int, n - 1);
        if s == e {
            let line = ls[s];
            let ec = min_int(span.end_column as int, byte_len(line) as int);
            sc < byte_len(line) ==> (sc <= ec && char_index_of_byte(line, sc) is Some
                && char_index_of_byte(line, ec) is Some)
        } else {
            let first = ls[s];
            let last = ls[e];
            let ec = min_int(span.end_column as int, byte_len(last) as int);
            &&& sc < byte_len(first) ==> char_index_of_byte(first, sc) is Some
            &&& char_index_of_byte(last, ec) is Some
        }
    }
}

/// `text` with every documentation text removed, in order.
pub open spec fn remove_docs(text: Seq<char>, docs: Seq<Seq<char>>) -> Seq<char>
    decreases docs.len(),
{
    if docs.len() == 0 {
        text
    } else {
        remove_all_spec(remove_docs(text, docs.drop_last()), docs.last())
    }
}

/// A trimmed line made only of a comment marker, or starting with one.
pub open spec fn is_comment_line(t: Seq<char>) -> bool {
    is_prefix(seq!['/', '/', '/'], t) || is_prefix(seq!['/', '/'], t) || is_prefix(seq!['#'], t)
        || is_prefix(seq!['/', '*'], t) || is_prefix(seq!['*', '/'], t) || t == seq!['*']
}

/// The lines kept: not empty and not comment lines.
pub open spec fn code_lines(ls: Seq<Seq<char>>) -> Seq<Seq<char>>
    decreases ls.len(),
{
    if ls.len() == 0 {
        Seq::empty()
    } else {
        let rest = code_lines(ls.drop_last());
        let l = ls.last();
        if l.len() > 0 && !is_comment_line(trim_spec(l)) {
            rest.push(l)
        } else {
            rest
        }
    }
}

/// Lines joined by newlines.
pub open spec fn join_lines(ls: Seq<Seq<char>>) -> Seq<char>
    decreases ls.len(),
{
    if ls.len() == 0 {
        Seq::empty()
    } else if ls.len() == 1 {
        ls[0]
    } else {
        join_lines(ls.drop_last()) + seq!['\n'] + ls.last()
    }
}

/// Number of characters of `w` that are not alphanumeric.
pub open spec fn punct_count(w: Seq<char>) -> nat
    decreases w.len(),
{
    if w.len() == 0 {
        0
    } else {
        punct_count(w.drop_last()) + if is_alphanumeric_char(w.last()) {
            0nat
        } else {
            1nat
        }
    }
}

/// Approximate tokens: one per word plus one per two punctuation characters in it.
pub open spec fn token_sum(words: Seq<Seq<char>>) -> nat
    decreases words.len(),
{
    if words.len() == 0 {
        0
    } else {
        token_sum(words.drop_last()) + 1 + punct_count(words.last()) / 2
    }
}

/// The size: the approximate token count of the span's code with documentation texts and
/// comment lines removed (truncated to 32 bits).
pub open spec fn spec_token_size(source: Seq<char>, span: SourceSpan, doc_texts: Seq<Seq<char>>) -> u32 {
    let pure = remove_docs(span_text(source, span), doc_texts);
    let text = join_lines(code_lines(lines_spec(pure)));
    token_sum(words_spec(text)) as u32
}

// -----------------------------------------------------------------------------
// Implementation
// -----------------------------------------------------------------------------

/// Tiktoken-based size function: counts tokens in the source code span
pub struct TiktokenSizeFunction;

impl TiktokenSizeFunction {
    pub fn new() -> (r: Self) {
        Self
    }
}

impl Default for TiktokenSizeFunction {
    fn default() -> (r: Self) {
        Self::new()
    }
}

fn append_chars(out: &mut Vec<char>, s: &[char])
    ensures
        final(out)@ == old(out)@ + s@,
{
    let ghost start = out@;
    let mut i: usize = 0;
    while i < s.len()
        invariant
            i <= s@.len(),
            out@ == start + s@.take(i as int),
        decreases s@.len() - i,
    {
        out.push(s[i]);
        assert(start + s@.take(i as int + 1) =~= (start + s@.take(i as int)).push(s@[i as int]));
        i = i + 1;
    }
    assert(s@.take(i as int) =~= s@);
}

/// The code text of the span (see `span_text`).
fn extract_span_text(source: &str, span: &SourceSpan) -> (r: Vec<char>)
    requires
        span_cuts_ok(source@, *span),
    ensures
        r@ == span_text(source@, *span),
{
    let chars = str_chars(source);
    let ls = lines(chars.as_slice());
    let ghost lsv = lines_spec(source@);
    assert(ls@.len() == lsv.len());
    assert(forall|k: int| 0 <= k < ls@.len() ==> #[trigger] ls@[k]@ == lsv[k]);
    let start_line_idx = span.start_line as usize;
    if start_line_idx >= ls.len() {
        return Vec::new();
    }
    let end_line_idx = if (span.end_line as usize) < ls.len() - 1 {
        span.end_line as usize
    } else {
        ls.len() - 1
    };
    let mut code_snippet: Vec<char> = Vec::new();
    if start_line_idx == end_line_idx {
        // Single line
        let line = &ls[start_line_idx];
        let line_len = byte_length(line.as_slice());
        let start_col = span.start_column as u128;
        let end_col = if (span.end_column as u128) < line_len {
            span.end_column as u128
        } else {
            line_len
        };
        if start_col < line_len {
            let a = char_index_at_byte(line.as_slice(), start_col);
            let b = char_index_at_byte(line.as_slice(), end_col);
            proof {
                lemma_char_index_of_byte_bound(line@, start_col as int);
                lemma_char_index_of_byte_bound(line@, end_col as int);
                lemma_char_index_monotone(line@, start_col as int, end_col as int);
            }
            match (a, b) {
                (Some(a), Some(b)) => {
                    code_snippet = slice_chars(line.as_slice(), a, b);
                },
                _ => {},
            }
        }
        code_snippet
    } else {
        // Multiple lines: the first from its start column
        let first_line = &ls[start_line_idx];
        let first_len = byte_length(first_line.as_slice());
        let start_col = span.start_column as u128;
        if start_col < first_len {
            let a = char_index_at_byte(first_line.as_slice(), start_col);
            proof {
                lemma_char_index_of_byte_bound(first_line@, start_col as int);
            }
            match a {
                Some(a) => {
                    let head = slice_chars(first_line.as_slice(), a, first_line.len());
                    assert(head@ =~= first_line@.skip(a as int));
                    code_snippet = head;
                },
                None => {},
            }
        }
        code_snippet.push('\n');
        let ghost head_nl = code_snippet@;
        // Middle lines
        let mut k = start_line_idx + 1;
        assert(lines_with_newlines(lsv, start_line_idx + 1, start_line_idx + 1) =~= Seq::<char>::empty());
        while k < end_line_idx
            invariant
                start_line_idx + 1 <= k,
                k <= end_line_idx || k == start_line_idx + 1,
                end_line_idx < ls@.len(),
                ls@.len() == lsv.len(),
                forall|m: int| 0 <= m < ls@.len() ==> #[trigger] ls@[m]@ == lsv[m],
                code_snippet@ == head_nl + lines_with_newlines(lsv, start_line_idx + 1, k as int),
            decreases end_line_idx - k,
        {
            append_chars(&mut code_snippet, ls[k].as_slice());
            code_snippet.push('\n');
            proof {
                assert(lines_with_newlines(lsv, start_line_idx + 1, k + 1) == lines_with_newlines(
                    lsv,
                    start_line_idx + 1,
                    k as int,
                ) + lsv[k as int] + seq!['\n']);
                assert(code_snippet@ =~= head_nl + lines_with_newlines(lsv, start_line_idx + 1, k + 1));
            }
            k = k + 1;
        }
        proof {
            if end_line_idx < start_line_idx + 1 {
                assert(lines_with_newlines(lsv, start_line_idx + 1, end_line_idx as int) =~= Seq::<char>::empty());
            }
        }
        // Last line up to its end column
        let last_line = &ls[end_line_idx];
        let last_len = byte_length(last_line.as_slice());
        let end_col = if (span.end_column as u128) < last_len {
            span.end_column as u128
        } else {
            last_len
        };
        let b = char_index_at_byte(last_line.as_slice(), end_col);
        proof {
            lemma_char_index_of_byte_bound(last_line@, end_col as int);
        }
        match b {
            Some(b) => {
                let tail = slice_chars(last_line.as_slice(), 0, b);
                assert(tail@ =~= last_line@.take(b as int));
                append_chars(&mut code_snippet, tail.as_slice());
            },
            None => {},
        }
        proof {
            let mid = lines_with_newlines(lsv, start_line_idx + 1, end_line_idx as int);
            if k > end_line_idx {
                assert(mid =~= Seq::<char>::empty());
                assert(lines_with_newlines(lsv, start_line_idx + 1, k as int) =~= Seq::<char>::empty());
            }
        }
        code_snippet
    }
}

/// Byte positions that are char boundaries keep their order as char positions.
proof fn lemma_char_index_monotone(line: Seq<char>, a: int, b: int)
    requires
        a <= b,
        char_index_of_byte(line, a) is Some,
        char_index_of_byte(line, b) is Some,
    ensures
        char_index_of_byte(line, a)->0 <= char_index_of_byte(line, b)->0,
    decreases line.len(),
{
    lemma_char_index_of_byte_bound(line, a);
    lemma_char_index_of_byte_bound(line, b);
    if a != 0 && b != 0 {
        lemma_char_index_monotone(line.drop_first(), a - utf8_len_of(line[0]), b - utf8_len_of(line[0]));
    } else if a != 0 {
        assert(false);
    }
}

pub open spec fn utf8_len_of(c: char) -> int {
    crate::text::utf8_len(c) as int
}

/// The comment-marker test of a trimmed line.
fn is_comment_marker_line(t: &[char]) -> (r: bool)
    ensures
        r == is_comment_line(t@),
{
    let triple = ['/', '/', '/'];
    let double = ['/', '/'];
    let hash = ['#'];
    let open = ['/', '*'];
    let close = ['*', '/'];
    assert(triple@ =~= seq!['/', '/', '/']);
    assert(double@ =~= seq!['/', '/']);
    assert(hash@ =~= seq!['#']);
    assert(open@ =~= seq!['/', '*']);
    assert(close@ =~= seq!['*', '/']);
    let star = t.len() == 1 && t[0] == '*';
    assert(star == (t@ == seq!['*'])) by {
        if t@.len() == 1 && t@[0] == '*' {
            assert(t@ =~= seq!['*']);
        }
    }
    starts_with(t, triple.as_slice()) || starts_with(t, double.as_slice()) || starts_with(
        t,
        hash.as_slice(),
    ) || starts_with(t, open.as_slice()) || starts_with(t, close.as_slice()) || star
}

/// Approximate token count of a text (see `token_sum`), truncated to 32 bits.
fn count_tokens_approx(text: &[char]) -> (r: u32)
    ensures
        r == token_sum(words_spec(text@)) as u32,
{
    let words = split_words(text);
    let ghost ws = words_spec(text@);
    assert(words@.len() == ws.len());
    let mut total: u128 = 0;
    let mut i: usize = 0;
    while i < words.len()
        invariant
            i <= words@.len(),
            words@.len() == ws.len(),
            deep_chars(words@) == ws,
            total == token_sum(ws.take(i as int)),
            total <= i * 0x8000_0000_0000_0001,
            words@.len() == words.len(),
        decreases words@.len() - i,
    {
        let w = &words[i];
        assert(w@ == ws[i as int]);
        let mut punct: u128 = 0;
        let mut k: usize = 0;
        while k < w.len()
            invariant
                k <= w@.len(),
                w@.len() == w.len(),
                punct == punct_count(w@.take(k as int)),
                punct <= k,
                k <= usize::MAX,
            decreases w@.len() - k,
        {
            assert(w@.take(k as int + 1).drop_last() =~= w@.take(k as int));
            if !char_is_alphanumeric(w[k]) {
                punct = punct + 1;
            }
            k = k + 1;
        }
        assert(w@.take(k as int) =~= w@);
        assert(punct / 2 <= 0x8000_0000_0000_0000);
        assert(ws.take(i as int + 1).drop_last() =~= ws.take(i as int));
        assert(ws.take(i as int + 1).last() == w@);
        total = total + 1 + punct / 2;
        i = i + 1;
    }
    assert(ws.take(i as int) =~= ws);
    total as u32
}

/// Whether the byte columns of `span` cut the lines of `source` at char boundaries (see
/// `span_cuts_ok`).
fn span_cuts_ok_exec(source: &str, span: &SourceSpan) -> (r: bool)
    ensures
        r == span_cuts_ok(source@, *span),
{
    let chars = str_chars(source);
    let ls = lines(chars.as_slice());
    let ghost lsv = lines_spec(source@);
    assert(ls@.len() == lsv.len());
    assert(forall|k: int| 0 <= k < ls@.len() ==> #[trigger] ls@[k]@ == lsv[k]);
    let start_line_idx = span.start_line as usize;
    if start_line_idx >= ls.len() {
        return true;
    }
    let end_line_idx = if (span.end_line as usize) < ls.len() - 1 {
        span.end_line as usize
    } else {
        ls.len() - 1
    };
    let start_col = span.start_column as u128;
    if start_line_idx == end_line_idx {
        let line = &ls[start_line_idx];
        let line_len = byte_length(line.as_slice());
        let end_col = if (span.end_column as u128) < line_len {
            span.end_column as u128
        } else {
            line_len
        };
        if start_col < line_len {
            start_col <= end_col && char_index_at_byte(line.as_slice(), start_col).is_some()
                && char_index_at_byte(line.as_slice(), end_col).is_some()
        } else {
            true
        }
    } else {
        let first_line = &ls[start_line_idx];
        let last_line = &ls[end_line_idx];
        let first_len = byte_length(first_line.as_slice());
        let last_len = byte_length(last_line.as_slice());
        let end_col = if (span.end_column as u128) < last_len {
            span.end_column as u128
        } else {
            last_len
        };
        let head_ok = if start_col < first_len {
            char_index_at_byte(first_line.as_slice(), start_col).is_some()
        } else {
            true
        };
        head_ok && char_index_at_byte(last_line.as_slice(), end_col).is_some()
    }
}

impl SizeFunction for TiktokenSizeFunction {
    open spec fn accepts(&self, source: Seq<char>, span: SourceSpan) -> bool {
        span_cuts_ok(source, span)
    }

    open spec fn spec_compute(&self, source: Seq<char>, span: SourceSpan, doc_texts: Seq<Seq<char>>) -> u32 {
        spec_token_size(source, span, doc_texts)
    }

    fn accepts_span(&self, source: &str, span: &SourceSpan) -> (r: bool) {
        span_cuts_ok_exec(source, span)
    }

    fn compute(&self, source: &str, span: &SourceSpan, doc_texts: &[String]) -> (r: u32) {
        // Extract the code snippet from the span
        let code_snippet = extract_span_text(source, span);
        // 1. Remove recognized doc_texts contents
        let mut pure_logic = code_snippet;
        let mut i: usize = 0;
        while i < doc_texts.len()
            invariant
                i <= doc_texts@.len(),
                pure_logic@ == remove_docs(span_text(source@, *span), strings_view(doc_texts@).take(i as int)),
            decreases doc_texts@.len() - i,
        {
            let doc = str_chars(doc_texts[i].as_str());
            proof {
                assert(strings_view(doc_texts@).take(i as int + 1).drop_last() =~= strings_view(
                    doc_texts@,
                ).take(i as int));
                assert(strings_view(doc_texts@).take(i as int + 1).last() == doc_texts@[i as int]@);
            }
            pure_logic = remove_all(pure_logic.as_slice(), doc.as_slice());
            i = i + 1;
        }
        assert(strings_view(doc_texts@).take(i as int) =~= strings_view(doc_texts@));
        // 2. Drop empty lines and lines that are only comment markers
        let ls = lines(pure_logic.as_slice());
        let ghost lsv = lines_spec(pure_logic@);
        let mut kept: Vec<Vec<char>> = Vec::new();
        let mut j: usize = 0;
        while j < ls.len()
            invariant
                j <= ls@.len(),
                deep_chars(ls@) == lsv,
                deep_chars(kept@) == code_lines(lsv.take(j as int)),
            decreases ls@.len() - j,
        {
            let line = &ls[j];
            assert(line@ == lsv[j as int]);
            proof {
                assert(lsv.take(j as int + 1).drop_last() =~= lsv.take(j as int));
                assert(lsv.take(j as int + 1).last() == line@);
            }
            let trimmed = trim(line.as_slice());
            if line.len() > 0 && !is_comment_marker_line(trimmed.as_slice()) {
                let ghost before = kept@;
                let copy = slice_chars(line.as_slice(), 0, line.len());
                assert(copy@ =~= line@);
                kept.push(copy);
                assert(deep_chars(kept@) =~= deep_chars(before).push(line@));
            }
            j = j + 1;
        }
        assert(lsv.take(j as int) =~= lsv);
        // 3. Join with newlines and count
        let mut final_text: Vec<char> = Vec::new();
        let mut m: usize = 0;
        while m < kept.len()
            invariant
                m <= kept@.len(),
                final_text@ == join_lines(deep_chars(kept@).take(m as int)),
            decreases kept@.len() - m,
        {
            let ghost dk = deep_chars(kept@);
            proof {
                assert(dk.take(m as int + 1).drop_last() =~= dk.take(m as int));
                assert(dk.take(m as int + 1).last() == kept@[m as int]@);
                if m == 0 {
                    assert(dk.take(1)[0] == kept@[0]@);
                }
            }
            if m > 0 {
                final_text.push('\n');
            }
            append_chars(&mut final_text, kept[m].as_slice());
            proof {
                if m > 0 {
                    assert(final_text@ =~= join_lines(dk.take(m as int)) + seq!['\n'] + kept@[m as int]@);
                } else {
                    assert(final_text@ =~= kept@[0]@);
                }
            }
            m = m + 1;
        }
        assert(deep_chars(kept@).take(m as int) =~= deep_chars(kept@));
        count_tokens_approx(final_text.as_slice())
    }
}

/// Each line followed by a newline.
pub open spec fn with_newline(l: Seq<char>) -> Seq<char> {
    l + seq!['\n']
}

proof fn lemma_lines_with_newlines_flatten(ls: Seq<Seq<char>>, from: int, to: int)
    requires
        0 <= from <= to <= ls.len(),
    ensures
        lines_with_newlines(ls, from, to) == ls.subrange(from, to).map_values(|l: Seq<char>| with_newline(l)).flatten(),
    decreases to - from,
{
    let m = ls.subrange(from, to).map_values(|l: Seq<char>| with_newline(l));
    m.lemma_flatten_and_flatten_alt_are_equivalent();
    if from < to {
        lemma_lines_with_newlines_flatten(ls, from, to - 1);
        let m2 = ls.subrange(from, to - 1).map_values(|l: Seq<char>| with_newline(l));
        m2.lemma_flatten_and_flatten_alt_are_equivalent();
        assert(m.drop_last() =~= m2);
        assert(m.last() == with_newline(ls[to - 1]));
        assert(lines_with_newlines(ls, from, to) =~= m2.flatten_alt() + m.last());
    } else {
        assert(m =~= Seq::<Seq<char>>::empty());
    }
}

/// The text of a span over several lines is the first line from the start column, a
/// newline, then every line strictly between the first and the last, each followed by a
/// newline, and then the last line up to the end column: no line in between is left out.
pub proof fn law_span_text_keeps_middle_lines(source: Seq<char>, span: SourceSpan)
    requires
        (span.start_line as int) < lines_spec(source).len(),
        (span.start_line as int) < min_int(span.end_line as int, lines_spec(source).len() - 1),
    ensures
        ({
            let ls = lines_spec(source);
            let s = span.start_line as int;
            let e = min_int(span.end_line as int, ls.len() - 1);
            let first = ls[s];
            let last = ls[e];
            let head = if (span.start_column as int) < byte_len(first) {
                first.skip(char_index_of_byte(first, span.start_column as int)->0)
            } else {
                Seq::empty()
            };
            let ec = min_int(span.end_column as int, byte_len(last) as int);
            span_text(source, span) == head + seq!['\n'] + ls.subrange(s + 1, e).map_values(
                |l: Seq<char>| with_newline(l),
            ).flatten() + last.take(char_index_of_byte(last, ec)->0)
        }),
{
    let ls = lines_spec(source);
    let s = span.start_line as int;
    let e = min_int(span.end_line as int, ls.len() - 1);
    lemma_lines_with_newlines_flatten(ls, s + 1, e);
}

/// A middle line's characters all stand in the text of a span over several lines: the
/// text is at least as long as the middle lines together, each with its newline.
pub proof fn law_span_text_covers_middle_lines(source: Seq<char>, span: SourceSpan, k: int)
    requires
        (span.start_line as int) < k < min_int(span.end_line as int, lines_spec(source).len() - 1),
    ensures
        span_text(source, span).len() >= lines_spec(source)[k].len() + 2,
{
    let ls = lines_spec(source);
    let s = span.start_line as int;
    let e = min_int(span.end_line as int, ls.len() - 1);
    law_span_text_keeps_middle_lines(source, span);
    let m = ls.subrange(s + 1, e).map_values(|l: Seq<char>| with_newline(l));
    assert(m[k - s - 1] == with_newline(ls[k]));
    m.lemma_flatten_length_ge_single_element_length(k - s - 1);
    m.lemma_flatten_and_flatten_alt_are_equivalent();
}

} // verus!
