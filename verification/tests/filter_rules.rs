use embd::filter::{Filter, FilterError};

fn filter(allowed: &[&str], denied: &[&str]) -> Filter {
    let inc: Vec<String> = allowed.iter().map(|s| s.to_string()).collect();
    let exc: Vec<String> = denied.iter().map(|s| s.to_string()).collect();
    match Filter::from_patterns(&inc, &exc) {
        Ok(f) => f,
        Err(e) => panic!("unexpected error: {}", e.message()),
    }
}

fn filter_error(allowed: &[&str], denied: &[&str]) -> FilterError {
    let inc: Vec<String> = allowed.iter().map(|s| s.to_string()).collect();
    let exc: Vec<String> = denied.iter().map(|s| s.to_string()).collect();
    match Filter::from_patterns(&inc, &exc) {
        Ok(_) => panic!("patterns should have been refused"),
        Err(e) => e,
    }
}

#[test]
fn empty_filter_includes_everything() {
    let f = Filter::allow_all();
    assert!(f.includes("a.txt"));
    assert!(f.includes("deep/nested/path.rs"));
}

#[test]
fn from_empty_patterns_includes_everything() {
    let f = filter(&[], &[]);
    assert!(f.includes("anything"));
}

#[test]
fn include_only_acts_as_allowlist() {
    let f = filter(&["src/**"], &[]);
    assert!(f.includes("src/main.rs"));
    assert!(f.includes("src/a/b.rs"));
    assert!(!f.includes("docs/readme.md"));
    assert!(!f.includes("Cargo.toml"));
}

#[test]
fn exclude_only_acts_as_denylist() {
    let f = filter(&[], &["**/*.md", "docs/**"]);
    assert!(f.includes("src/main.rs"));
    assert!(!f.includes("readme.md"));
    assert!(!f.includes("src/notes.md"));
    assert!(!f.includes("docs/guide/intro.txt"));
}

#[test]
fn exclude_beats_include() {
    let f = filter(&["src/**"], &["**/*.test.rs"]);
    assert!(f.includes("src/main.rs"));
    assert!(!f.includes("src/main.test.rs"));
}

#[test]
fn star_does_not_cross_separator() {
    let f = filter(&["*.md"], &[]);
    assert!(f.includes("readme.md"));
    assert!(!f.includes("docs/readme.md"));
}

#[test]
fn bad_glob_is_an_error() {
    let err = filter_error(&["["], &[]);
    assert!(err.message().contains("invalid glob pattern"));
}

#[test]
fn bad_glob_error_names_the_pattern() {
    match filter_error(&["src/**"], &["ok/**", "a[", "b["]) {
        FilterError::InvalidPattern { pattern, .. } => assert_eq!(pattern, "a["),
        FilterError::SetBuild { .. } => panic!("expected an invalid pattern"),
    }
}

#[test]
fn bad_include_glob_is_reported_before_bad_exclude() {
    match filter_error(&["x[", "y["], &["z["]) {
        FilterError::InvalidPattern { pattern, detail } => {
            assert_eq!(pattern, "x[");
            let message = FilterError::InvalidPattern { pattern: pattern.clone(), detail: detail.clone() }.message();
            assert_eq!(message, format!("invalid glob pattern 'x[': {detail}"));
        }
        FilterError::SetBuild { .. } => panic!("expected an invalid pattern"),
    }
}

#[test]
fn set_build_error_message() {
    let e = FilterError::SetBuild { detail: "too big".to_string() };
    assert_eq!(e.message(), "failed to build glob set from patterns: too big");
}

#[test]
fn double_star_crosses_separators() {
    let f = filter(&["**/*.rs"], &[]);
    assert!(f.includes("main.rs"));
    assert!(f.includes("a/b/c.rs"));
    assert!(!f.includes("a/b/c.txt"));
}

#[test]
fn excluded_key_is_refused_whatever_the_includes() {
    // Exclusion beats inclusion for every key that an exclude pattern matches.
    let f = filter(&["**"], &["secret/**"]);
    assert!(!f.includes("secret/key.pem"));
    assert!(f.includes("public/index.html"));
}
