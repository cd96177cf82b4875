#[test]
fn test_ignore_compiles() {
    // These tests verify the macro compiles correctly
    // Actual suppression behavior is tested in the main rustcop crate
}
