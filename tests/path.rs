use si::path::render_path;

#[test]
fn render_path_works() {
    assert_eq!(render_path("foo"), "./foo");
    assert_eq!(render_path("/foo"), "/foo");
    assert_eq!(render_path("./foo"), "./foo");
}

#[test]
fn render_path_keeps_dotted_and_empty_paths() {
    assert_eq!(render_path("../foo"), "../foo");
    assert_eq!(render_path(".hidden"), ".hidden");
    assert_eq!(render_path(""), "./");
    assert_eq!(render_path("dir/bar"), "./dir/bar");
}
