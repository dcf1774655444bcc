use super::TestDetector;
use crate::text::{is_suffix, str_chars, str_ends_with};
use vstd::prelude::*;

verus! {

pub open spec fn go_is_test(file_path: Seq<char>) -> bool {
    is_suffix("_test.go"@, file_path)
}

pub struct GoTestDetector;

impl TestDetector for GoTestDetector {
    open spec fn spec_is_test_code(&self, symbol: Seq<char>, file_path: Seq<char>) -> bool {
        go_is_test(file_path)
    }

    open spec fn spec_language(&self) -> Seq<char> {
        "go"@
    }

    fn is_test_code(&self, _symbol: &str, file_path: &str) -> (r: bool) {
        let p = str_chars(file_path);
        str_ends_with(p.as_slice(), "_test.go")
    }

    fn language(&self) -> (r: &str) {
        "go"
    }
}

} // verus!
