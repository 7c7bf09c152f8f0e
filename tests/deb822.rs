use deb_strip_copyright::deb822::copyright::{CopyrightError, CopyrightFile};
use deb_strip_copyright::deb822::{Deb822File, Field, ParseErrorKind};
use deb_strip_copyright::glob::GlobError;

fn field<'a>(doc: &'a Deb822File, stanza: usize, name: &str) -> Option<&'a Field> {
    doc.stanzas[stanza].fields.iter().find(|(n, _)| n == name).map(|(_, f)| f)
}

#[test]
fn field_values_in_order() {
    let doc = Deb822File::parse("Files-Excluded: foo\n bar baz\n qux\n").unwrap();
    assert_eq!(doc.stanzas.len(), 1);
    let f = field(&doc, 0, "Files-Excluded").unwrap();
    assert_eq!(f.same_line_value.as_deref(), Some("foo"));
    assert_eq!(f.list_values, vec!["bar baz".to_string(), "qux".to_string()]);
    assert_eq!(f.iter_lines(), vec!["foo", "bar baz", "qux"]);
}

#[test]
fn field_tokens_are_split_on_whitespace() {
    let c = CopyrightFile::parse("Files-Excluded: foo\n bar baz\n qux\n").unwrap();
    for p in ["foo", "bar", "baz", "qux"] {
        assert!(c.is_path_excluded(p), "{:?}", p);
    }
    assert!(!c.is_path_excluded("bar baz"));
    assert!(!c.is_path_excluded("quux"));
}

#[test]
fn duplicate_field_is_rejected() {
    let err = Deb822File::parse("A: 1\nB: 2\nA: 3\n").unwrap_err();
    assert_eq!(err.row, 3);
    assert_eq!(err.col, 0);
    match err.kind {
        ParseErrorKind::DuplicateField { name, previous } => {
            assert_eq!(name, "A");
            assert_eq!(previous.same_line_value.as_deref(), Some("1"));
        }
        other => panic!("unexpected error {:?}", other),
    }
}

#[test]
fn same_name_in_two_stanzas_is_fine() {
    let doc = Deb822File::parse("A: 1\n\nA: 2\n").unwrap();
    assert_eq!(doc.stanzas.len(), 2);
    assert_eq!(field(&doc, 1, "A").unwrap().same_line_value.as_deref(), Some("2"));
}

#[test]
fn missing_colon_is_rejected() {
    let err = Deb822File::parse("A: 1\nno colon here\n").unwrap_err();
    assert_eq!(err.row, 2);
    assert!(matches!(err.kind, ParseErrorKind::MissingColon));
}

#[test]
fn indented_header_is_rejected() {
    let err = Deb822File::parse("A: 1\n\n  B: 2\n").unwrap_err();
    assert_eq!(err.row, 3);
    assert!(matches!(err.kind, ParseErrorKind::HeaderStartsWithWhitespace));
}

#[test]
fn comments_are_invisible_but_rows_count_them() {
    let doc = Deb822File::parse("# header\nA: 1\n  # note\n b\n").unwrap();
    let f = field(&doc, 0, "A").unwrap();
    assert_eq!(f.list_values, vec!["b".to_string()]);
    let err = Deb822File::parse("# one\n# two\nbad\n").unwrap_err();
    assert_eq!(err.row, 3);
}

#[test]
fn header_without_same_line_value() {
    let doc = Deb822File::parse("Files:\n\t a \n b\t\n").unwrap();
    let f = field(&doc, 0, "Files").unwrap();
    assert_eq!(f.same_line_value, None);
    assert_eq!(f.list_values, vec!["a".to_string(), "b".to_string()]);
}

#[test]
fn stanzas_split_on_blank_runs() {
    let doc = Deb822File::parse("A: 1\nB: 2\n\n\n\nC: 3\n").unwrap();
    assert_eq!(doc.stanzas.len(), 2);
    assert_eq!(doc.stanzas[0].fields.len(), 2);
    assert_eq!(doc.stanzas[0].fields[0].0, "A");
    assert_eq!(doc.stanzas[0].fields[1].0, "B");
    assert_eq!(doc.stanzas[1].fields[0].0, "C");
}

#[test]
fn only_comments_gives_no_stanzas() {
    let doc = Deb822File::parse("# nothing\n   # here").unwrap();
    assert!(doc.stanzas.is_empty());
}

#[test]
fn end_to_end_policy() {
    let text = "Format: x\nUpstream-Name: demo\n\nFiles-Excluded: *.tmp\nComment: y\n";
    let c = CopyrightFile::parse(text).unwrap();
    assert!(c.is_path_excluded("build/x.tmp"));
    assert!(!c.is_path_excluded("build/x.txt"));
}

#[test]
fn policy_from_parsed_document() {
    let doc = Deb822File::parse("Files-Excluded:\n vendor/*\n  *.o docs/??.md\n").unwrap();
    let c = CopyrightFile::new(doc).unwrap();
    assert!(c.is_path_excluded("vendor/lib.rs"));
    assert!(c.is_path_excluded("main.o"));
    assert!(c.is_path_excluded("docs/ab.md"));
    assert!(!c.is_path_excluded("docs/abc.md"));
    assert!(!c.is_path_excluded("src/main.rs"));
}

#[test]
fn field_name_is_case_sensitive() {
    let c = CopyrightFile::parse("files-excluded: *\n").unwrap();
    assert!(!c.is_path_excluded("anything"));
}

#[test]
fn bad_pattern_reports_its_token() {
    match CopyrightFile::parse("Files-Excluded: ok a**b c\\d\n") {
        Err(CopyrightError::Extract(e)) => {
            assert_eq!(e.token, "a**b");
            assert_eq!(e.error, GlobError::StarNextToWildcard);
        }
        other => panic!("unexpected result {:?}", other),
    }
}

#[test]
fn parse_error_comes_through_copyright() {
    assert!(matches!(
        CopyrightFile::parse("A: 1\nA: 2\n"),
        Err(CopyrightError::Parse(_))
    ));
}

#[test]
fn whitespace_only_line_is_a_continuation() {
    let doc = Deb822File::parse("A: 1\n   \nB: 2\n").unwrap();
    assert_eq!(doc.stanzas.len(), 1);
    assert_eq!(field(&doc, 0, "A").unwrap().list_values, vec![String::new()]);
    assert!(field(&doc, 0, "B").is_some());
}

#[test]
fn leading_blank_line_is_not_a_header() {
    let err = Deb822File::parse("\nA: 1\n").unwrap_err();
    assert_eq!(err.row, 1);
    assert!(matches!(err.kind, ParseErrorKind::MissingColon));
}

#[test]
fn same_line_value_keeps_trailing_space() {
    let doc = Deb822File::parse("Name:\t value  \n").unwrap();
    assert_eq!(field(&doc, 0, "Name").unwrap().same_line_value.as_deref(), Some("value  "));
}

#[test]
fn header_splits_at_first_colon() {
    let doc = Deb822File::parse("a:b:c\n").unwrap();
    assert_eq!(doc.stanzas[0].fields[0].0, "a");
    assert_eq!(field(&doc, 0, "a").unwrap().same_line_value.as_deref(), Some("b:c"));
}

#[test]
fn duplicate_after_other_fields_is_rejected() {
    let err = Deb822File::parse("X: 0\nN: a\nN: b\n").unwrap_err();
    assert_eq!(err.row, 3);
    match err.kind {
        ParseErrorKind::DuplicateField { name, previous } => {
            assert_eq!(name, "N");
            assert_eq!(previous.same_line_value.as_deref(), Some("a"));
        }
        other => panic!("unexpected error {:?}", other),
    }
}

#[test]
fn error_after_blank_line_aborts_parse() {
    let err = Deb822File::parse("A: 1\nB: 2\n\nbad\n").unwrap_err();
    assert_eq!(err.row, 4);
    assert!(matches!(err.kind, ParseErrorKind::MissingColon));
}
