use symcount::{filter_files, uses_ignore_rules};

fn candidates() -> Vec<(&'static str, Option<String>)> {
    vec![
        ("dir/file.a", Some(String::from("a"))),
        ("dir/file.b", Some(String::from("b"))),
        ("dir/file.c", Some(String::from("c"))),
        ("dir/README", None),
    ]
}

#[test]
fn no_filter_keeps_every_candidate() {
    assert_eq!(
        Some(vec!["dir/file.a", "dir/file.b", "dir/file.c", "dir/README"]),
        filter_files(candidates(), &None)
    );
}

#[test]
fn filter_keeps_only_listed_extensions() {
    let extensions = Some(vec![String::from("a"), String::from("b")]);
    assert_eq!(
        Some(vec!["dir/file.a", "dir/file.b"]),
        filter_files(candidates(), &extensions)
    );
}

#[test]
fn file_without_extension_is_dropped_under_a_filter() {
    let extensions = Some(vec![String::from("")]);
    assert_eq!(None, filter_files(candidates(), &extensions));
}

#[test]
fn nothing_kept_gives_none() {
    let extensions = Some(vec![String::from("z")]);
    assert_eq!(None, filter_files(candidates(), &extensions));
    let empty: Vec<(&str, Option<String>)> = Vec::new();
    assert_eq!(None, filter_files(empty, &None));
}

#[test]
fn ignore_rules_only_without_filter() {
    assert!(uses_ignore_rules(&None));
    assert!(!uses_ignore_rules(&Some(vec![String::from("rs")])));
}
