use rtd::select::{is_service_file, resolve_target, Target};

#[test]
fn integer_token_is_an_id_even_if_a_path() {
    assert_eq!(resolve_target("12", true), Target::Id(12));
    assert_eq!(resolve_target("-3", false), Target::Id(-3));
}

#[test]
fn label_token() {
    assert_eq!(resolve_target("@work", true), Target::Label);
}

#[test]
fn path_tokens() {
    assert_eq!(resolve_target("projects.md", true), Target::File);
    assert_eq!(resolve_target("projects", true), Target::Dir);
    assert_eq!(resolve_target("projects.md", false), Target::Unknown);
    assert_eq!(resolve_target("12abc", false), Target::Unknown);
}

#[test]
fn archive_file_is_a_service_file() {
    assert!(is_service_file(".done"));
    assert!(!is_service_file("done"));
    assert!(!is_service_file(".done.md"));
    assert!(!is_service_file("inbox.md"));
}
