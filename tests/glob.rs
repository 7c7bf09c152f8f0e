use std::str::FromStr;

use deb_strip_copyright::glob::{Glob, GlobError};

fn check(glob: &str, subject: &str) -> bool {
    Glob::compile(glob).unwrap().matches(subject)
}

/// Check magic escaping.
#[test]
fn escape() {
    for (glob, test) in &[
        ("hello\\*world", "hello*world"),
        ("hello\\*\\*\\*world", "hello***world"),
        ("hello\\?\\?_what\\?\\?", "hello??_what??"),
        ("what_the_f\\*\\*\\*\\?", "what_the_f***?"),
    ] {
        let glob = Glob::from_str(glob).unwrap();
        assert!(glob.matches(test), "glob {:?} did not match {:?}", &glob, &test);
    }
}

#[test]
fn escaped_wildcards_are_literal() {
    assert!(!check("hello\\*world", "hello_world"));
    assert!(!check("a\\?", "ab"));
    assert!(check("back\\\\slash", "back\\slash"));
}

#[test]
fn literal_patterns_match_themselves() {
    for s in ["ab", "debian/rules", "x", "Zz09", "ünïcødé", "a.b.c"] {
        assert!(check(s, s), "{:?}", s);
    }
}

#[test]
fn literal_patterns_are_anchored() {
    assert!(!check("foo", "foobar"));
    assert!(!check("foo", "fo"));
    assert!(!check("bar", "foobar"));
}

#[test]
fn question_marks_replace_single_characters() {
    let base = "abcdefgh";
    for q in ["?bcdefgh", "a?c?e?g?", "????????", "abcdefg?", "?bc??fgh"] {
        assert!(check(q, base), "{:?}", q);
    }
    assert!(check("a?c", "aéc"));
    assert!(!check("a?c", "ac"));
    assert!(!check("a?c", "abbc"));
    assert!(!check("??", "a"));
}

#[test]
fn star_splices_any_center() {
    assert!(check("front*back", "frontback"));
    assert!(check("front*back", "front_xyz_back"));
    assert!(check("*.tmp", "x.tmp"));
    assert!(check("pre*", "pre"));
    assert!(check("pre*", "prefix and more"));
    assert!(check("*", ""));
    assert!(check("*", "anything/at/all"));
}

#[test]
fn star_is_ungreedy_without_backtracking() {
    // The star stops at the first `b`; the literal `bc` then meets `bb`.
    assert!(!check("a*bc", "abbc"));
    // Full anchoring: the text after the first `.tmp` is left over.
    assert!(!check("*.tmp", "a.tmp.tmp"));
    assert!(!check("a*b", "axbxb"));
    assert!(check("a*b", "axxb"));
}

#[test]
fn path_prefix_matches_everything_below() {
    for sub in ["x", "deep/er/file.txt", "*?"] {
        assert!(check("dir/*", &format!("dir/{}", sub)));
    }
    assert!(!check("dir/*", "other/x"));
}

#[test]
fn adjacent_star_is_rejected() {
    assert_eq!(Glob::compile("a**b").unwrap_err(), GlobError::StarNextToWildcard);
    assert_eq!(Glob::compile("a*?b").unwrap_err(), GlobError::StarNextToWildcard);
    assert_eq!(Glob::compile("**").unwrap_err(), GlobError::StarNextToWildcard);
    assert!(Glob::compile("a?*b").is_ok());
    assert!(Glob::compile("???").is_ok());
    assert!(Glob::compile("a*\\*b").is_ok());
}

#[test]
fn bad_escape_is_rejected() {
    assert_eq!(Glob::compile("a\\b").unwrap_err(), GlobError::BadEscape('b'));
    assert_eq!(Glob::compile("\\n").unwrap_err(), GlobError::BadEscape('n'));
}

#[test]
fn empty_pattern_matches_nothing() {
    let g = Glob::compile("").unwrap();
    assert!(g.is_empty());
    assert!(!g.matches(""));
    assert!(!g.matches("x"));
    assert!(!Glob::compile("a").unwrap().is_empty());
}

#[test]
fn trailing_backslash_is_dropped() {
    assert!(check("abc\\", "abc"));
    assert!(Glob::compile("\\").unwrap().is_empty());
}
