use phaedra_render::spawn::is_cwd_relative_path;

#[test]
fn test_cwd_relative() {
    assert!(is_cwd_relative_path("."));
    assert!(is_cwd_relative_path("./foo"));
    assert!(is_cwd_relative_path("../foo"));
    assert!(!is_cwd_relative_path("foo"));
    assert!(!is_cwd_relative_path("/foo"));
}
