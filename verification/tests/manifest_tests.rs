use hydropkg::{list_installed, record_installed, record_removed, remove_step, PkgError};

fn names(text: &str) -> Vec<String> {
    let mut v = list_installed(text);
    v.sort();
    v
}

#[test]
fn record_installed_appends_a_line() {
    let text = String::new();
    let out = record_installed(&text, &"foo".to_string());
    assert_eq!(out, "foo\n");
    assert_eq!(names(&out), vec!["foo".to_string()]);
}

#[test]
fn record_installed_preserves_existing_names() {
    let text = "alpha\nbeta\n".to_string();
    let out = record_installed(&text, &"gamma".to_string());
    assert_eq!(out, "alpha\nbeta\ngamma\n");
    assert_eq!(
        names(&out),
        vec!["alpha".to_string(), "beta".to_string(), "gamma".to_string()]
    );
}

#[test]
fn record_installed_mends_a_missing_final_newline() {
    let text = "alpha".to_string();
    let out = record_installed(&text, &"beta".to_string());
    assert_eq!(names(&out), vec!["alpha".to_string(), "beta".to_string()]);
}

#[test]
fn record_installed_twice_lists_the_name_once() {
    let text = String::new();
    let once = record_installed(&text, &"foo".to_string());
    let twice = record_installed(&once, &"foo".to_string());
    assert_eq!(twice, "foo\nfoo\n");
    let listed = list_installed(&twice);
    assert_eq!(listed.len(), 1);
    assert_eq!(listed[0], "foo");
}

#[test]
fn list_installed_skips_blank_lines_and_duplicates() {
    let listed = names("a\n\na\nb\n\n");
    assert_eq!(listed, vec!["a".to_string(), "b".to_string()]);
}

#[test]
fn list_installed_of_empty_text_is_empty() {
    assert!(list_installed("").is_empty());
}

#[test]
fn record_removed_drops_exactly_the_name() {
    let text = "foo\nbar\n".to_string();
    let out = record_removed(&text, &"bar".to_string()).unwrap();
    assert_eq!(out, "foo\n");
    assert_eq!(names(&out), vec!["foo".to_string()]);
}

#[test]
fn record_removed_of_absent_name_is_not_installed() {
    let text = "foo\nbar\n".to_string();
    let r = record_removed(&text, &"baz".to_string());
    assert_eq!(r, Err(PkgError::NotInstalled));
    assert_eq!(names(&text), vec!["bar".to_string(), "foo".to_string()]);
}

#[test]
fn record_removed_collapses_duplicate_lines_of_the_name() {
    let text = "foo\nbar\nfoo\n".to_string();
    let out = record_removed(&text, &"foo".to_string()).unwrap();
    assert_eq!(names(&out), vec!["bar".to_string()]);
}

#[test]
fn remove_step_plans_manifest_and_artifact() {
    let text = "foo\nbar\n".to_string();
    let plan = remove_step(&"bar".to_string(), &text).unwrap();
    assert_eq!(plan.artifact, "bar");
    assert_eq!(names(&plan.manifest), vec!["foo".to_string()]);
}

#[test]
fn remove_step_of_absent_name_fails() {
    let text = "foo\n".to_string();
    let r = remove_step(&"bar".to_string(), &text);
    assert!(matches!(r, Err(PkgError::NotInstalled)));
}
