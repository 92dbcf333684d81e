//! Paths, read as `std::path::Path` reads them.

use vibestation::path::{base_name_of, file_name_of, is_within};

#[test]
fn a_trailing_separator_does_not_hide_the_last_component() {
    assert_eq!(file_name_of("/home/dev/code/api/"), Some("api".to_string()));
    assert_eq!(file_name_of("/home/dev/code/api//"), Some("api".to_string()));
    assert_eq!(file_name_of("/home/dev/code/api"), Some("api".to_string()));
    assert_eq!(file_name_of("/"), None);
    assert_eq!(file_name_of("/home/.."), None);
    assert_eq!(base_name_of("code"), "code");
    for p in ["/home/dev/code/api/", "/home/dev/code/api", "/", "/home/..", "code", ""] {
        assert_eq!(
            file_name_of(p).as_deref(),
            std::path::Path::new(p).file_name().and_then(|n| n.to_str()),
            "{p}"
        );
    }
}

#[test]
fn within_goes_by_whole_components_whatever_the_trailing_separators() {
    let cases = [
        ("/a/b", "/a/"),
        ("/a", "/a/"),
        ("/a/", "/a"),
        ("/ab", "/a"),
        ("/a/b", "/a"),
        ("/a", "/"),
        ("a", "/"),
        ("/a", "/a/b"),
    ];
    for (p, base) in cases {
        assert_eq!(
            is_within(p, base),
            std::path::Path::new(p).starts_with(base),
            "{p} within {base}"
        );
    }
}
