use logtripwire::matcher::Matcher;

#[test]
fn plain_regex_matches() {
    let m = Matcher::new(r"ERROR|FATAL", false, false).unwrap();
    assert!(m.is_match("2026-09-20 ERROR disk full"));
    assert!(!m.is_match("2026-09-20 INFO all fine"));
}

#[test]
fn invalid_regex_is_a_clean_error_not_a_panic() {
    let result = Matcher::new("[unterminated", false, false);
    assert!(result.is_err());
}

#[test]
fn ignore_case_matches_regardless_of_case() {
    let m = Matcher::new("error", false, true).unwrap();
    assert!(m.is_match("ERROR: boom"));
    assert!(m.is_match("Error: boom"));
}

#[test]
fn case_sensitive_by_default() {
    let m = Matcher::new("ERROR", false, false).unwrap();
    assert!(!m.is_match("error: boom"));
    assert!(m.is_match("ERROR: boom"));
}

#[test]
fn literal_mode_escapes_regex_metacharacters() {
    let m = Matcher::new("[503]", true, false).unwrap();
    assert!(m.is_match("upstream returned [503] bad gateway"));
    assert!(!m.is_match("upstream returned 5 or 0 or 3"));
}

#[test]
fn literal_mode_can_be_combined_with_ignore_case() {
    let m = Matcher::new("Connection Refused", true, true).unwrap();
    assert!(m.is_match("connection refused by peer"));
}

#[test]
fn an_invalid_pattern_reports_the_pattern_as_given() {
    match Matcher::new("(open", false, true) {
        Err(e) => {
            assert_eq!(e.pattern, "(open");
            assert!(e.cause.to_string().contains("unclosed group"));
        }
        Ok(_) => panic!("the pattern should not compile"),
    }
}

#[test]
fn literal_mode_escapes_every_metacharacter() {
    let text = r"a\.+*?()|[]{}^$#&-~b";
    let m = Matcher::new(text, true, false).unwrap();
    assert!(m.is_match(&format!("xx{text}yy")));
    assert!(!m.is_match("a\\.+*?()|[]{}^$#&-~c"));
    // Without literal mode the same text is no valid regex.
    assert!(Matcher::new(text, false, false).is_err());
}
