//! Test-code detection by language conventions.
pub mod go;
pub mod java;
pub mod javascript;
pub mod python;
pub mod rust;

use crate::text::{is_suffix, str_chars, str_ends_with};
use vstd::prelude::*;

pub use go::GoTestDetector;
pub use java::JavaTestDetector;
pub use javascript::JavaScriptTestDetector;
pub use python::PythonTestDetector;
pub use rust::RustTestDetector;

verus! {

/// A test-code detector for one language.
pub trait TestDetector {
    /// Whether the symbol in the file is test code.
    spec fn spec_is_test_code(&self, symbol: Seq<char>, file_path: Seq<char>) -> bool;

    /// The language name.
    spec fn spec_language(&self) -> Seq<char>;

    fn is_test_code(&self, symbol: &str, file_path: &str) -> (r: bool)
        ensures
            r == self.spec_is_test_code(symbol@, file_path@),
    ;

    fn language(&self) -> (r: &str)
        ensures
            r@ == self.spec_language(),
    ;
}

/// The language detectors the universal detector consults.
#[derive(Debug, Clone, Copy, PartialEq, Eq, Structural)]
pub enum LanguageDetector {
    Python,
    Rust,
    JavaScript,
    Java,
    Go,
}

impl LanguageDetector {
    pub open spec fn spec_is_test(self, symbol: Seq<char>, file_path: Seq<char>) -> bool {
        match self {
            LanguageDetector::Python => python::python_is_test(symbol, file_path),
            LanguageDetector::Rust => rust::rust_is_test(file_path),
            LanguageDetector::JavaScript => javascript::javascript_is_test(file_path),
            LanguageDetector::Java => java::java_is_test(file_path),
            LanguageDetector::Go => go::go_is_test(file_path),
        }
    }

    pub fn is_test_code(&self, symbol: &str, file_path: &str) -> (r: bool)
        ensures
            r == self.spec_is_test(symbol@, file_path@),
    {
        match self {
            LanguageDetector::Python => PythonTestDetector.is_test_code(symbol, file_path),
            LanguageDetector::Rust => RustTestDetector.is_test_code(symbol, file_path),
            LanguageDetector::JavaScript => JavaScriptTestDetector.is_test_code(symbol, file_path),
            LanguageDetector::Java => JavaTestDetector.is_test_code(symbol, file_path),
            LanguageDetector::Go => GoTestDetector.is_test_code(symbol, file_path),
        }
    }
}

/// The detector chosen by file extension, if any.
pub open spec fn spec_detect_language(file_path: Seq<char>) -> Option<LanguageDetector> {
    if is_suffix(".py"@, file_path) {
        Some(LanguageDetector::Python)
    } else if is_suffix(".rs"@, file_path) {
        Some(LanguageDetector::Rust)
    } else if is_suffix(".js"@, file_path) || is_suffix(".ts"@, file_path) || is_suffix(
        ".jsx"@,
        file_path,
    ) || is_suffix(".tsx"@, file_path) {
        Some(LanguageDetector::JavaScript)
    } else if is_suffix(".java"@, file_path) {
        Some(LanguageDetector::Java)
    } else if is_suffix(".go"@, file_path) {
        Some(LanguageDetector::Go)
    } else {
        None
    }
}

/// The universal decision: the detector of the file's language decides; a file of no known
/// language is test code when any detector says so.
pub open spec fn universal_is_test(detectors: Seq<LanguageDetector>, symbol: Seq<char>, file_path: Seq<char>) -> bool {
    match spec_detect_language(file_path) {
        Some(d) => d.spec_is_test(symbol, file_path),
        None => exists|i: int| 0 <= i < detectors.len() && #[trigger] detectors[i].spec_is_test(symbol, file_path),
    }
}

/// Dispatches to the detector of the file's language, or asks them all.
pub struct UniversalTestDetector {
    detectors: Vec<LanguageDetector>,
}

impl UniversalTestDetector {
    pub closed spec fn spec_detectors(&self) -> Seq<LanguageDetector> {
        self.detectors@
    }

    pub fn new() -> (r: Self)
        ensures
            r.spec_detectors() == all_detectors(),
    {
        let detectors = vec![
            LanguageDetector::Python,
            LanguageDetector::Rust,
            LanguageDetector::JavaScript,
            LanguageDetector::Java,
            LanguageDetector::Go,
        ];
        assert(detectors@ =~= seq![
            LanguageDetector::Python,
            LanguageDetector::Rust,
            LanguageDetector::JavaScript,
            LanguageDetector::Java,
            LanguageDetector::Go,
        ]);
        Self { detectors }
    }

    pub fn is_test_code(&self, symbol: &str, file_path: &str) -> (r: bool)
        ensures
            r == universal_is_test(self.spec_detectors(), symbol@, file_path@),
    {
        match Self::detect_language(file_path) {
            Some(detector) => detector.is_test_code(symbol, file_path),
            None => {
                let mut i: usize = 0;
                while i < self.detectors.len()
                    invariant
                        i <= self.detectors@.len(),
                        spec_detect_language(file_path@) is None,
                        forall|k: int| 0 <= k < i ==> !(#[trigger] self.detectors@[k]).spec_is_test(symbol@, file_path@),
                    decreases self.detectors@.len() - i,
                {
                    if self.detectors[i].is_test_code(symbol, file_path) {
                        assert(self.detectors@[i as int].spec_is_test(symbol@, file_path@));
                        return true;
                    }
                    i = i + 1;
                }
                false
            },
        }
    }

    fn detect_language(file_path: &str) -> (r: Option<LanguageDetector>)
        ensures
            r == spec_detect_language(file_path@),
    {
        let p = str_chars(file_path);
        let p = p.as_slice();
        if str_ends_with(p, ".py") {
            Some(LanguageDetector::Python)
        } else if str_ends_with(p, ".rs") {
            Some(LanguageDetector::Rust)
        } else if str_ends_with(p, ".js") || str_ends_with(p, ".ts") || str_ends_with(p, ".jsx")
            || str_ends_with(p, ".tsx") {
            Some(LanguageDetector::JavaScript)
        } else if str_ends_with(p, ".java") {
            Some(LanguageDetector::Java)
        } else if str_ends_with(p, ".go") {
            Some(LanguageDetector::Go)
        } else {
            None
        }
    }
}

impl Default for UniversalTestDetector {
    fn default() -> (r: Self)
        ensures
            r.spec_detectors() == seq![
                LanguageDetector::Python,
                LanguageDetector::Rust,
                LanguageDetector::JavaScript,
                LanguageDetector::Java,
                LanguageDetector::Go,
            ],
    {
        Self::new()
    }
}

/// The detectors of every supported language, in the order `UniversalTestDetector::new` keeps.
pub open spec fn all_detectors() -> Seq<LanguageDetector> {
    seq![
        LanguageDetector::Python,
        LanguageDetector::Rust,
        LanguageDetector::JavaScript,
        LanguageDetector::Java,
        LanguageDetector::Go,
    ]
}

/// The universal detector made by `new` asks the detector of the file's language when the
/// extension names one, and otherwise says test code when any of the five detectors does.
pub proof fn law_universal_dispatch(symbol: Seq<char>, file_path: Seq<char>)
    ensures
        universal_is_test(all_detectors(), symbol, file_path) == match spec_detect_language(file_path) {
            Some(d) => d.spec_is_test(symbol, file_path),
            None => python::python_is_test(symbol, file_path) || rust::rust_is_test(file_path)
                || javascript::javascript_is_test(file_path) || java::java_is_test(file_path)
                || go::go_is_test(file_path),
        },
{
    let ds = all_detectors();
    if spec_detect_language(file_path) is None {
        assert(ds[0] == LanguageDetector::Python);
        assert(ds[1] == LanguageDetector::Rust);
        assert(ds[2] == LanguageDetector::JavaScript);
        assert(ds[3] == LanguageDetector::Java);
        assert(ds[4] == LanguageDetector::Go);
        if exists|i: int| 0 <= i < ds.len() && #[trigger] ds[i].spec_is_test(symbol, file_path) {
            let i = choose|i: int| 0 <= i < ds.len() && #[trigger] ds[i].spec_is_test(symbol, file_path);
            assert(0 <= i < 5);
        }
        assert(ds[0].spec_is_test(symbol, file_path) == python::python_is_test(symbol, file_path));
        assert(ds[1].spec_is_test(symbol, file_path) == rust::rust_is_test(file_path));
        assert(ds[2].spec_is_test(symbol, file_path) == javascript::javascript_is_test(file_path));
        assert(ds[3].spec_is_test(symbol, file_path) == java::java_is_test(file_path));
        assert(ds[4].spec_is_test(symbol, file_path) == go::go_is_test(file_path));
    }
}

} // verus!
