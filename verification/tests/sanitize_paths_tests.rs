use notepad_core::paths::{get_notes_directory, note_file_name, Platform};
use notepad_core::sanitize::sanitize;
use notepad_core::store::titles_from_names;

#[test]
fn sanitize_keeps_alphanumerics_and_interior_spaces() {
    assert_eq!(sanitize("My Note").unwrap().to_text(), "My Note");
    assert_eq!(sanitize("MyNote42").unwrap().to_text(), "MyNote42");
    assert_eq!(sanitize("a!b").unwrap().to_text(), "a b");
}

#[test]
fn sanitize_trims_and_replaces() {
    assert_eq!(sanitize("  hi  ").unwrap().to_text(), "hi");
    assert_eq!(sanitize("!!Report 2024??").unwrap().to_text(), "Report 2024");
    assert_eq!(sanitize("../../etc/passwd").unwrap().to_text(), "etc passwd");
}

#[test]
fn sanitize_rejects_titles_without_alphanumerics() {
    assert!(sanitize("!!!").is_none());
    assert!(sanitize("").is_none());
    assert!(sanitize("   ").is_none());
    assert!(sanitize("?!/.\\").is_none());
}

#[test]
fn note_file_name_appends_extension() {
    let t = sanitize("MyNote").unwrap();
    assert_eq!(note_file_name(&t), "MyNote.txt");
}

#[test]
fn storage_root_policy_by_platform() {
    assert_eq!(
        get_notes_directory(Platform::Desktop, Some("/home/u")),
        "/home/u/Documents/encrypted_notes"
    );
    assert_eq!(
        get_notes_directory(Platform::Desktop, None),
        "/tmp/Documents/encrypted_notes"
    );
    assert_eq!(
        get_notes_directory(Platform::Mobile, Some("/data/user/0")),
        "/data/user/0/files/notes"
    );
    assert_eq!(get_notes_directory(Platform::Mobile, None), "/data/data/files/notes");
}

#[test]
fn titles_from_names_filters_strips_and_sorts() {
    let names = vec![
        String::from("beta.txt"),
        String::from("alpha.txt"),
        String::from("notes.md"),
        String::from("readme"),
        String::from("gamma.txt"),
    ];
    let titles = titles_from_names(&names);
    assert_eq!(titles, vec!["alpha", "beta", "gamma"]);
}

#[test]
fn titles_from_names_empty_directory() {
    assert_eq!(titles_from_names(&Vec::new()), Vec::<String>::new());
}
