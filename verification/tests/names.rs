use eazip::utils::names::{
    is_directory_name, parent_of, strip_name, validate_name, validate_symlink,
};

#[test]
fn symlink_validation() {
    assert!(validate_symlink("a/b", "../c", false));
    assert!(!validate_symlink("a/b", "../../c", false));
    assert!(!validate_symlink("a/b", "/c", false));
    assert!(!validate_symlink("a/b", ".//////../../c", false));
    assert!(!validate_symlink("a/b", "a/../c", false));
    assert!(!validate_symlink("a/b", "C:/e", true));
}

#[test]
fn symlink_targets_at_the_edge() {
    assert!(validate_symlink("a/b", "", false));
    assert!(validate_symlink("a/b", ".", false));
    assert!(validate_symlink("a/b", "..", false));
    assert!(validate_symlink("a/b", "../", false));
    assert!(validate_symlink("a/b/c", "../../d/e/f", false));
    assert!(validate_symlink("a", "b/c", false));
    assert!(validate_symlink("a", "...", false));
    assert!(validate_symlink("a/b", "C:/e", false));
    assert!(!validate_symlink("a", "..", false));
    assert!(!validate_symlink("a/b", "a\\b", false));
    assert!(!validate_symlink("a/b", "a\0b", false));
}

#[test]
fn names_are_put_in_canonical_form() {
    assert_eq!(validate_name("a/b.txt", false).unwrap(), "a/b.txt");
    assert_eq!(validate_name("./a//b/./c/", false).unwrap(), "a/b/c/");
    assert_eq!(validate_name("a.b/..c/...", false).unwrap(), "a.b/..c/...");
    assert_eq!(validate_name("hello/Benoît.txt", false).unwrap(), "hello/Benoît.txt");
    assert_eq!(validate_name("hello//./你好.txt", false).unwrap(), "hello/你好.txt");
    assert_eq!(validate_name("a:b", false).unwrap(), "a:b");
}

#[test]
fn names_that_are_not_allowed() {
    for name in ["", "/", "./", ".//", "/a", "a\\b", "a\0b", ".", "..", "../a", "a/..", "a/../b", "a/."] {
        assert!(validate_name(name, false).is_none(), "{name:?}");
    }
    assert!(validate_name("C:/a", true).is_none());
}

#[test]
fn validating_a_name_twice_changes_nothing() {
    for name in ["a", "a/", "./a", "a//b", "a/./b/", "é/./ü"] {
        let once = validate_name(name, true).unwrap();
        let twice = validate_name(&once, true).unwrap();
        assert_eq!(once, twice);
    }
}

#[test]
fn parts_of_names() {
    assert!(is_directory_name("a/"));
    assert!(!is_directory_name("a"));
    assert!(!is_directory_name(""));
    assert_eq!(strip_name("a/"), b"a");
    assert_eq!(strip_name("a"), b"a");
    assert_eq!(parent_of("a"), "");
    assert_eq!(parent_of("a/"), "");
    assert_eq!(parent_of("a/b"), "a");
    assert_eq!(parent_of("a/b/c/"), "a/b");
    assert_eq!(parent_of("é/ü"), "é");
}
