//! Reading source files: the line selection done on a file's text.
use crate::text::{lines, lines_spec, str_chars, string_from_chars};
use vstd::prelude::*;

verus! {

/// The smaller of `a` and `b`.
pub open spec fn min_nat(a: int, b: int) -> int {
    if a <= b {
        a
    } else {
        b
    }
}

/// The lines `start_line ..= end_line` (numbered from 1) of `content`, cut at its last
/// line; none when `start_line` is past the last line.
pub open spec fn spec_line_range(content: Seq<char>, start_line: int, end_line: int) -> Seq<Seq<char>> {
    let ls = lines_spec(content);
    if start_line > ls.len() {
        Seq::empty()
    } else {
        ls.subrange(start_line - 1, min_nat(end_line, ls.len() as int))
    }
}

/// The lines `start_line ..= end_line` (numbered from 1, end inclusive) of a file's text, as
/// the file reader hands them out. Lines are split as `str::lines` splits them.
pub fn line_range(content: &str, start_line: usize, end_line: usize) -> (r: Vec<String>)
    requires
        1 <= start_line,
        start_line <= lines_spec(content@).len() ==> start_line <= end_line + 1,
    ensures
        r@.map_values(|l: String| l@) == spec_line_range(content@, start_line as int, end_line as int),
{
    let chars = str_chars(content);
    let ls = lines(chars.as_slice());
    let ghost lsv = lines_spec(content@);
    let end_idx = if end_line < ls.len() {
        end_line
    } else {
        ls.len()
    };
    let mut r: Vec<String> = Vec::new();
    if start_line > ls.len() {
        assert(r@.map_values(|l: String| l@) =~= Seq::<Seq<char>>::empty());
        return r;
    }
    let first = start_line - 1;
    let mut i = first;
    while i < end_idx
        invariant
            first == start_line - 1,
            first <= i <= end_idx,
            end_idx <= ls@.len(),
            crate::text::deep_chars(ls@) == lsv,
            ls@.len() == lsv.len(),
            r@.map_values(|l: String| l@) == lsv.subrange(first as int, i as int),
        decreases end_idx - i,
    {
        let line = string_from_chars(ls[i].as_slice());
        let ghost before = r@;
        r.push(line);
        proof {
            assert(crate::text::deep_chars(ls@)[i as int] == ls@[i as int]@);
            assert(r@ == before.push(line));
            assert(before.map_values(|l: String| l@).len() == before.len());
            let target = lsv.subrange(first as int, i as int + 1);
            let got = r@.map_values(|l: String| l@);
            assert(got.len() == target.len());
            assert forall|k: int| 0 <= k < got.len() implies got[k] == target[k] by {
                if k < before.len() {
                    assert(r@[k] == before[k]);
                    assert(before.map_values(|l: String| l@)[k] == lsv.subrange(first as int, i as int)[k]);
                }
            }
            assert(got =~= target);
        }
        i = i + 1;
    }
    r
}

} // verus!
