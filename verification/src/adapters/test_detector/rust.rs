use super::TestDetector;
use crate::text::{
    after_last, after_last_exec, has_substring, is_prefix, is_suffix, str_chars, str_contains,
    str_ends_with, str_starts_with,
};
use vstd::prelude::*;

verus! {

/// In a `tests/` directory, or a file named `*_test.rs`.
pub open spec fn rust_is_test(file_path: Seq<char>) -> bool {
    has_substring(file_path, "/tests/"@) || is_prefix("tests/"@, file_path) || is_suffix(
        "_test.rs"@,
        after_last(file_path, '/'),
    )
}

pub struct RustTestDetector;

impl TestDetector for RustTestDetector {
    open spec fn spec_is_test_code(&self, symbol: Seq<char>, file_path: Seq<char>) -> bool {
        rust_is_test(file_path)
    }

    open spec fn spec_language(&self) -> Seq<char> {
        "rust"@
    }

    fn is_test_code(&self, _symbol: &str, file_path: &str) -> (r: bool) {
        let p = str_chars(file_path);
        if str_contains(p.as_slice(), "/tests/") || str_starts_with(p.as_slice(), "tests/") {
            return true;
        }
        let filename = after_last_exec(p.as_slice(), '/');
        str_ends_with(filename.as_slice(), "_test.rs")
    }

    fn language(&self) -> (r: &str) {
        "rust"
    }
}

} // verus!
