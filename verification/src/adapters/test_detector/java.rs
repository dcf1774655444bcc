use super::TestDetector;
use crate::text::{
    after_last, after_last_exec, has_substring, is_prefix, is_suffix, str_chars, str_contains,
    str_ends_with, str_starts_with,
};
use vstd::prelude::*;

verus! {

/// In a `src/test/` or `test/` directory, or a file named `*Test.java` or `*Tests.java`.
pub open spec fn java_is_test(file_path: Seq<char>) -> bool {
    has_substring(file_path, "/src/test/"@) || has_substring(file_path, "/test/"@) || is_prefix(
        "test/"@,
        file_path,
    ) || is_suffix("Test.java"@, after_last(file_path, '/')) || is_suffix(
        "Tests.java"@,
        after_last(file_path, '/'),
    )
}

pub struct JavaTestDetector;

impl TestDetector for JavaTestDetector {
    open spec fn spec_is_test_code(&self, symbol: Seq<char>, file_path: Seq<char>) -> bool {
        java_is_test(file_path)
    }

    open spec fn spec_language(&self) -> Seq<char> {
        "java"@
    }

    fn is_test_code(&self, _symbol: &str, file_path: &str) -> (r: bool) {
        let p = str_chars(file_path);
        if str_contains(p.as_slice(), "/src/test/") || str_contains(p.as_slice(), "/test/")
            || str_starts_with(p.as_slice(), "test/") {
            return true;
        }
        let filename = after_last_exec(p.as_slice(), '/');
        str_ends_with(filename.as_slice(), "Test.java") || str_ends_with(filename.as_slice(), "Tests.java")
    }

    fn language(&self) -> (r: &str) {
        "java"
    }
}

} // verus!
