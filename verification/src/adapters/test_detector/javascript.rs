use super::TestDetector;
use crate::text::{has_substring, is_prefix, is_suffix, str_chars, str_contains, str_ends_with, str_starts_with};
use vstd::prelude::*;

verus! {

/// In a `__tests__/` or `tests/` directory, or a `.test.*` / `.spec.*` file of JavaScript or
/// TypeScript (with or without JSX).
pub open spec fn javascript_is_test(file_path: Seq<char>) -> bool {
    has_substring(file_path, "/__tests__/"@) || has_substring(file_path, "/tests/"@) || is_prefix(
        "__tests__/"@,
        file_path,
    ) || is_prefix("tests/"@, file_path) || is_suffix(".test.js"@, file_path) || is_suffix(
        ".test.ts"@,
        file_path,
    ) || is_suffix(".test.jsx"@, file_path) || is_suffix(".test.tsx"@, file_path) || is_suffix(
        ".spec.js"@,
        file_path,
    ) || is_suffix(".spec.ts"@, file_path) || is_suffix(".spec.jsx"@, file_path) || is_suffix(
        ".spec.tsx"@,
        file_path,
    )
}

pub struct JavaScriptTestDetector;

impl TestDetector for JavaScriptTestDetector {
    open spec fn spec_is_test_code(&self, symbol: Seq<char>, file_path: Seq<char>) -> bool {
        javascript_is_test(file_path)
    }

    open spec fn spec_language(&self) -> Seq<char> {
        "javascript"@
    }

    fn is_test_code(&self, _symbol: &str, file_path: &str) -> (r: bool) {
        let p = str_chars(file_path);
        let p = p.as_slice();
        if str_contains(p, "/__tests__/") || str_contains(p, "/tests/") || str_starts_with(p, "__tests__/")
            || str_starts_with(p, "tests/") {
            return true;
        }
        str_ends_with(p, ".test.js") || str_ends_with(p, ".test.ts") || str_ends_with(p, ".test.jsx")
            || str_ends_with(p, ".test.tsx") || str_ends_with(p, ".spec.js") || str_ends_with(p, ".spec.ts")
            || str_ends_with(p, ".spec.jsx") || str_ends_with(p, ".spec.tsx")
    }

    fn language(&self) -> (r: &str) {
        "javascript"
    }
}

} // verus!
