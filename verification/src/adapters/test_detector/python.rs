use super::TestDetector;
use crate::text::{
    after_last, after_last_exec, deep_chars, find_char, find_first, has_substring, is_prefix,
    is_suffix, slice_chars, split_char, split_char_spec, str_chars, str_contains, str_ends_with,
    str_equals, str_starts_with,
};
use vstd::prelude::*;

verus! {

/// Test code by path (a `tests/` or `test/` directory, a `test_*` or `*_test.py` file) or by
/// symbol `name#Kind`: a last dotted segment `test_*`; a type whose last segment is `Test*`;
/// a function with some segment `Test*`.
pub open spec fn python_is_test(symbol: Seq<char>, file_path: Seq<char>) -> bool {
    let filename = after_last(file_path, '/');
    if has_substring(file_path, "/tests/"@) || has_substring(file_path, "/test/"@) || is_prefix(
        "tests/"@,
        file_path,
    ) || is_prefix("test/"@, file_path) {
        true
    } else if is_prefix("test_"@, filename) || is_suffix("_test.py"@, filename) {
        true
    } else {
        match find_first(symbol, seq!['#']) {
            None => false,
            Some(h) => {
                let name_part = symbol.take(h);
                let kind_suffix = symbol.skip(h + 1);
                let segments = split_char_spec(name_part, '.');
                let last = segments[segments.len() - 1];
                if is_prefix("test_"@, last) {
                    true
                } else if kind_suffix == "Type"@ && is_prefix("Test"@, last) {
                    true
                } else {
                    kind_suffix == "Function"@ && exists|k: int|
                        0 <= k < segments.len() && is_prefix("Test"@, #[trigger] segments[k])
                }
            },
        }
    }
}

pub struct PythonTestDetector;

impl TestDetector for PythonTestDetector {
    open spec fn spec_is_test_code(&self, symbol: Seq<char>, file_path: Seq<char>) -> bool {
        python_is_test(symbol, file_path)
    }

    open spec fn spec_language(&self) -> Seq<char> {
        "python"@
    }

    fn is_test_code(&self, symbol: &str, file_path: &str) -> (r: bool) {
        let p = str_chars(file_path);
        if str_contains(p.as_slice(), "/tests/") || str_contains(p.as_slice(), "/test/")
            || str_starts_with(p.as_slice(), "tests/") || str_starts_with(p.as_slice(), "test/") {
            return true;
        }
        let filename = after_last_exec(p.as_slice(), '/');
        if str_starts_with(filename.as_slice(), "test_") || str_ends_with(filename.as_slice(), "_test.py") {
            return true;
        }
        let s = str_chars(symbol);
        let n = s.len();
        proof {
            crate::text::lemma_find_from_bounds(s@, seq!['#'], 0);
        }
        let h = match find_char(s.as_slice(), '#') {
            Some(h) => h,
            None => {
                return false;
            },
        };
        let name_part = slice_chars(s.as_slice(), 0, h);
        let kind_suffix = slice_chars(s.as_slice(), h + 1, n);
        assert(name_part@ =~= s@.take(h as int));
        assert(kind_suffix@ =~= s@.skip(h + 1));
        let segments = split_char(name_part.as_slice(), '.');
        let ghost segs = split_char_spec(name_part@, '.');
        proof {
            lemma_split_char_nonempty(name_part@, '.');
        }
        assert(segments@.len() == segs.len());
        let last = &segments[segments.len() - 1];
        assert(last@ == segs[segs.len() - 1]);
        if str_starts_with(last.as_slice(), "test_") {
            return true;
        }
        if str_equals(kind_suffix.as_slice(), "Type") && str_starts_with(last.as_slice(), "Test") {
            return true;
        }
        str_equals(kind_suffix.as_slice(), "Function") && any_starts_with_test(&segments)
    }

    fn language(&self) -> (r: &str) {
        "python"
    }
}

fn any_starts_with_test(segments: &Vec<Vec<char>>) -> (r: bool)
    ensures
        r == exists|k: int| 0 <= k < segments@.len() && is_prefix("Test"@, #[trigger] deep_chars(segments@)[k]),
{
    let ghost segs = deep_chars(segments@);
    let mut i: usize = 0;
    while i < segments.len()
        invariant
            i <= segments@.len(),
            segs == deep_chars(segments@),
            forall|k: int| 0 <= k < i ==> !is_prefix("Test"@, #[trigger] segs[k]),
        decreases segments@.len() - i,
    {
        assert(segments@[i as int]@ == segs[i as int]);
        if str_starts_with(segments[i].as_slice(), "Test") {
            return true;
        }
        i = i + 1;
    }
    false
}

/// `str::split` always yields at least one piece.
pub proof fn lemma_split_char_nonempty(s: Seq<char>, sep: char)
    ensures
        split_char_spec(s, sep).len() >= 1,
    decreases s.len(),
{
    crate::text::lemma_find_from_bounds(s, seq![sep], 0);
}

} // verus!
