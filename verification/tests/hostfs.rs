use derp::hostfs::{normalize, under, unprivate};

#[test]
fn paths_are_normalized_lexically() {
    assert_eq!(normalize(b"/a/./b//c/../d", b"/"), b"/a/b/d");
    assert_eq!(normalize(b"../beta/data", b"/run/alpha"), b"/run/beta/data");
    assert_eq!(normalize(b"x", b"/run/alpha/"), b"/run/alpha/x");
    assert_eq!(normalize(b"/../..", b"/"), b"/");
    assert_eq!(normalize(b"", b"/run/alpha"), b"/run/alpha");
}

#[test]
fn a_directory_contains_itself_and_what_is_below() {
    assert!(under(b"/run/alpha", b"/run/alpha"));
    assert!(under(b"/run/alpha/x", b"/run/alpha"));
    assert!(!under(b"/run/alphabet", b"/run/alpha"));
    assert!(!under(b"/run", b"/run/alpha"));
    assert!(under(b"/run/alpha", b"/"));
    assert!(under(b"/", b"/"));
}

#[test]
fn private_aliases_compare_equal() {
    assert_eq!(unprivate(b"/private/tmp/x"), b"/tmp/x");
    assert_eq!(unprivate(b"/private/var/folders/a"), b"/var/folders/a");
    assert_eq!(unprivate(b"/private/other"), b"/private/other");
    assert_eq!(unprivate(b"/tmp/x"), b"/tmp/x");
}
