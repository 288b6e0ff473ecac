use cp_unfold::unfold::FileTable;
use cp_unfold::unfold::Unfold;

#[test]
fn test_super_import() {
    let mut fs = FileTable::new();
    fs.add_str(
        "test_super/src/main.rs",
        "mod library;\nuse library::nested::nested_func;\nfn main() {}\n",
    );
    fs.add_str(
        "test_super/library/nested.rs",
        "use super::base::base_func;\npub fn nested_func() {}\n",
    );
    fs.add_str("test_super/library/base.rs", "pub fn base_func() {}\n");

    let mut unfold = Unfold::from_args(
        "main.rs".to_string(),
        "library".to_string(),
        "test_super/src".to_string(),
        Some("test_super/library".to_string()),
    );
    let stdout = unfold.unfold(&fs).expect("Failed to execute command");

    assert!(stdout.contains("pub fn base_func()"), "Should contain base_func definition");
    assert!(stdout.contains("pub fn nested_func()"), "Should contain nested_func definition");
    assert!(!stdout.contains("use super::"), "Should not contain 'use super::' after unfolding");
    assert!(stdout.contains("fn main()"), "Should contain main function");
}

#[test]
fn test_basic_import() {
    let mut fs = FileTable::new();
    fs.add_str(
        "test_basic/library/math.rs",
        "pub fn add(a: i32, b: i32) -> i32 { a + b }",
    );
    fs.add_str(
        "test_basic/main.rs",
        "use library::math::*;\nfn main() { println!(\"{}\", add(1, 2)); }",
    );

    let mut unfold = Unfold::from_args(
        "main.rs".to_string(),
        "library".to_string(),
        "test_basic".to_string(),
        None,
    );
    let stdout = unfold.unfold(&fs).expect("Failed to execute command");

    assert!(stdout.contains("pub fn add"), "Should contain add function");
    assert!(stdout.contains("fn main()"), "Should contain main function");
}

#[test]
fn test_curly_bracket_import() {
    let mut fs = FileTable::new();
    fs.add_str("test_curly/library/utils.rs", "pub fn foo() {}\npub fn bar() {}");
    fs.add_str("test_curly/main.rs", "use library::utils::{foo, bar};\nfn main() {}");

    let mut unfold = Unfold::from_args(
        "main.rs".to_string(),
        "library".to_string(),
        "test_curly".to_string(),
        None,
    );
    let stdout = unfold.unfold(&fs).expect("Failed to execute command");

    assert!(stdout.contains("pub fn foo"), "Should contain foo function");
    assert!(stdout.contains("pub fn bar"), "Should contain bar function");
}
