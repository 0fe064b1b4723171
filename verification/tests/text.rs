use customs_core::resolve_relative;
use customs_core::text::{chars_of, is_blank, string_of, trim_chars};

#[test]
fn relative_resolution() {
    // One dot in a package's __init__ is the package itself.
    assert_eq!(resolve_relative("pkg.sub", true, 1, None).unwrap(), "pkg.sub");
    // One dot in a module is its package.
    assert_eq!(resolve_relative("pkg.sub", false, 1, Some("x")).unwrap(), "pkg.x");
    // No dots: the rest as it stands.
    assert_eq!(resolve_relative("pkg.sub", false, 0, Some("a.b")).unwrap(), "a.b");
    assert!(resolve_relative("pkg.sub", false, 0, Some("")).is_none());
    assert!(resolve_relative("pkg.sub", false, 0, None).is_none());
    // Above the top package.
    assert!(resolve_relative("pkg.sub", false, 3, Some("x")).is_none());
    assert_eq!(resolve_relative("pkg.sub", false, 2, Some("x.y")).unwrap(), "x.y");
    assert!(resolve_relative("pkg", false, 1, None).is_none());
    assert!(resolve_relative("", true, 1, None).is_none());
}

#[test]
fn strings_round_trip() {
    let v = chars_of("héllo 😀");
    assert_eq!(v.len(), 7);
    assert_eq!(string_of(&v), "héllo 😀");
}

#[test]
fn white_space() {
    assert!(is_blank(" \t\n\u{3000}"));
    assert!(is_blank(""));
    assert!(!is_blank(" x "));
    assert_eq!(string_of(&trim_chars(&chars_of("\u{a0} a b\r\n"))), "a b");
}
