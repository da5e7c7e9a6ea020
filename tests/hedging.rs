use std::collections::HashSet;
use windows_bash_guard::scan_text;

#[test]
fn detects_for_now() {
    let mut findings = Vec::new();
    let mut seen = HashSet::new();
    scan_text("I used a simple implementation for now.", &mut findings, &mut seen);
    assert!(findings.iter().any(|f| f.contains("for now")));
}

#[test]
fn detects_multiple_patterns() {
    let mut findings = Vec::new();
    let mut seen = HashSet::new();
    scan_text(
        "This is good enough for now. I'll revisit later.",
        &mut findings,
        &mut seen,
    );
    assert!(findings.iter().any(|f| f.contains("good enough")));
    assert!(findings.iter().any(|f| f.contains("for now")));
    assert!(findings.iter().any(|f| f.contains("revisit later")));
}

#[test]
fn detects_todo_case_sensitive() {
    let mut findings = Vec::new();
    let mut seen = HashSet::new();
    scan_text("// TODO: handle edge case", &mut findings, &mut seen);
    assert!(findings.iter().any(|f| f.contains("TODO")));
}

#[test]
fn ignores_todo_lowercase() {
    let mut findings = Vec::new();
    let mut seen = HashSet::new();
    scan_text("I updated the todo list component", &mut findings, &mut seen);
    assert!(findings.iter().all(|f| !f.contains("TODO")));
}

#[test]
fn deduplicates() {
    let mut findings = Vec::new();
    let mut seen = HashSet::new();
    scan_text("for now this is fine", &mut findings, &mut seen);
    scan_text("I did this for now", &mut findings, &mut seen);
    let count = findings.iter().filter(|f| f.contains("for now")).count();
    assert_eq!(count, 1);
}

#[test]
fn clean_text_no_findings() {
    let mut findings = Vec::new();
    let mut seen = HashSet::new();
    scan_text(
        "I implemented the feature with full error handling and comprehensive tests.",
        &mut findings,
        &mut seen,
    );
    assert!(findings.is_empty());
}

#[test]
fn case_insensitive_match() {
    let mut findings = Vec::new();
    let mut seen = HashSet::new();
    scan_text("This is a Basic Implementation.", &mut findings, &mut seen);
    assert!(findings.iter().any(|f| f.contains("basic implementation")));
}

#[test]
fn detects_temporary() {
    let mut findings = Vec::new();
    let mut seen = HashSet::new();
    scan_text(
        "I added a temporary workaround for the race condition.",
        &mut findings,
        &mut seen,
    );
    assert!(findings.iter().any(|f| f.contains("temporary")));
}

#[test]
fn detects_placeholder() {
    let mut findings = Vec::new();
    let mut seen = HashSet::new();
    scan_text(
        "I added a placeholder for the authentication logic.",
        &mut findings,
        &mut seen,
    );
    assert!(findings.iter().any(|f| f.contains("placeholder")));
}

#[test]
fn detects_workaround() {
    let mut findings = Vec::new();
    let mut seen = HashSet::new();
    scan_text(
        "I used a workaround to avoid the API limitation.",
        &mut findings,
        &mut seen,
    );
    assert!(findings.iter().any(|f| f.contains("workaround")));
}

#[test]
fn detects_fixme_in_code() {
    let mut findings = Vec::new();
    let mut seen = HashSet::new();
    scan_text(
        "function init() {\n  // FIXME: needs proper error handling\n}",
        &mut findings,
        &mut seen,
    );
    assert!(findings.iter().any(|f| f.contains("FIXME")));
}

#[test]
fn seen_set_suppresses_earlier_findings() {
    let mut findings = Vec::new();
    let mut seen = HashSet::new();
    seen.insert("workaround".to_string());
    scan_text("a workaround, TODO and XXX", &mut findings, &mut seen);
    assert_eq!(findings, vec!["TODO comment".to_string(), "XXX comment".to_string()]);
    assert!(seen.contains("TODO") && seen.contains("XXX") && seen.contains("workaround"));
}

#[test]
fn phrases_are_quoted_in_list_order() {
    let mut findings = Vec::new();
    let mut seen = HashSet::new();
    scan_text("Not Ideal, but Good Enough FOR NOW; HACK", &mut findings, &mut seen);
    assert_eq!(
        findings,
        vec![
            "\"for now\"".to_string(),
            "\"good enough\"".to_string(),
            "\"not ideal\"".to_string(),
            "HACK comment".to_string(),
        ]
    );
}

#[test]
fn scans_a_given_lowercase_form() {
    let mut findings = Vec::new();
    let mut seen = windows_bash_guard::empty_seen();
    assert!(seen.is_empty());
    windows_bash_guard::scan_lowered("QUICK AND DIRTY", "quick and dirty", &mut findings, &mut seen);
    assert_eq!(findings, vec!["\"quick and dirty\"".to_string()]);
}
