use context_footprint::adapters::test_detector::{
    JavaScriptTestDetector, PythonTestDetector, RustTestDetector, TestDetector,
    UniversalTestDetector, GoTestDetector, JavaTestDetector,
};

#[test]
fn test_detects_js_test_directories() {
    let detector = JavaScriptTestDetector;
    assert!(detector.is_test_code("", "src/__tests__/api.test.js"));
    assert!(detector.is_test_code("", "app/tests/unit/foo.js"));
    assert!(detector.is_test_code("", "__tests__/bar.js"));
    assert!(detector.is_test_code("", "tests/helper.ts"));
    assert!(!detector.is_test_code("", "src/components/Button.tsx"));
}

#[test]
fn test_detects_js_test_file_patterns() {
    let detector = JavaScriptTestDetector;
    assert!(detector.is_test_code("", "api.test.js"));
    assert!(detector.is_test_code("", "api.test.ts"));
    assert!(detector.is_test_code("", "api.test.jsx"));
    assert!(detector.is_test_code("", "api.test.tsx"));
    assert!(detector.is_test_code("", "api.spec.js"));
    assert!(detector.is_test_code("", "api.spec.ts"));
    assert!(detector.is_test_code("", "api.spec.jsx"));
    assert!(detector.is_test_code("", "api.spec.tsx"));
    assert!(!detector.is_test_code("", "src/api.js"));
    assert!(!detector.is_test_code("", "src/api.ts"));
}

#[test]
fn test_language_returns_javascript() {
    let detector = JavaScriptTestDetector;
    assert_eq!(detector.language(), "javascript");
}

#[test]
fn test_detects_test_directory() {
    let detector = PythonTestDetector;
    assert!(detector.is_test_code("", "tests/test_api.py"));
    assert!(detector.is_test_code("", "myproject/tests/test_utils.py"));
    assert!(!detector.is_test_code("", "src/utils.py"));
}

#[test]
fn test_detects_test_file_prefix() {
    let detector = PythonTestDetector;
    assert!(detector.is_test_code("", "test_api.py"));
    assert!(detector.is_test_code("", "src/test_utils.py"));
    assert!(!detector.is_test_code("", "src/api.py"));
}

#[test]
fn test_detects_test_file_suffix() {
    let detector = PythonTestDetector;
    assert!(detector.is_test_code("", "api_test.py"));
    assert!(detector.is_test_code("", "src/utils_test.py"));
    assert!(!detector.is_test_code("", "src/api.py"));
}

#[test]
fn test_detects_test_function() {
    let detector = PythonTestDetector;
    assert!(detector.is_test_code("module.test_my_function#Function", "src/module.py"));
    assert!(!detector.is_test_code("module.my_function#Function", "src/module.py"));
}

#[test]
fn test_detects_test_class() {
    let detector = PythonTestDetector;
    assert!(detector.is_test_code("module.TestMyClass#Type", "src/module.py"));
    assert!(detector.is_test_code("module.TestMyClass.test_method#Function", "src/module.py"));
    assert!(!detector.is_test_code("module.MyClass#Type", "src/module.py"));
}

#[test]
fn test_detects_rust_tests_directory() {
    let detector = RustTestDetector;
    assert!(detector.is_test_code("", "tests/integration_test.rs"));
    assert!(detector.is_test_code("", "crate/tests/foo.rs"));
    assert!(detector.is_test_code("", "tests/helpers/mod.rs"));
    assert!(!detector.is_test_code("", "src/lib.rs"));
}

#[test]
fn test_detects_rust_test_file_suffix() {
    let detector = RustTestDetector;
    assert!(detector.is_test_code("", "src/foo_test.rs"));
    assert!(detector.is_test_code("", "crate/bar_test.rs"));
    assert!(!detector.is_test_code("", "src/foo.rs"));
    assert!(!detector.is_test_code("", "src/lib.rs"));
}

#[test]
fn test_language_returns_rust() {
    let detector = RustTestDetector;
    assert_eq!(detector.language(), "rust");
}

#[test]
fn go_and_java_detectors() {
    assert!(GoTestDetector.is_test_code("", "pkg/server_test.go"));
    assert!(!GoTestDetector.is_test_code("", "pkg/server.go"));
    assert_eq!(GoTestDetector.language(), "go");
    assert!(JavaTestDetector.is_test_code("", "project/src/test/java/FooTest.java"));
    assert!(JavaTestDetector.is_test_code("", "src/main/FooTests.java"));
    assert!(!JavaTestDetector.is_test_code("", "src/main/Foo.java"));
    assert_eq!(JavaTestDetector.language(), "java");
}

#[test]
fn universal_detector_dispatches_by_extension() {
    let detector = UniversalTestDetector::new();
    // A Python file is judged by the Python rules only
    assert!(detector.is_test_code("module.test_x#Function", "src/module.py"));
    // A Rust file under src/ with a test-like Python symbol is not test code
    assert!(!detector.is_test_code("module.test_x#Function", "src/module.rs"));
    // A file of no known language is test code when any detector says so
    assert!(detector.is_test_code("", "tests/data.txt"));
    assert!(!detector.is_test_code("", "src/data.txt"));
}

#[test]
fn universal_detector_uses_only_the_go_rules_for_go_files() {
    let detector = UniversalTestDetector::new();
    // The Python rules call a file under tests/ test code; the Go rules do not.
    assert!(PythonTestDetector.is_test_code("", "tests/helper.go"));
    assert!(!GoTestDetector.is_test_code("", "tests/helper.go"));
    assert!(!detector.is_test_code("", "tests/helper.go"));
    assert!(detector.is_test_code("", "tests/helper_test.go"));
}
