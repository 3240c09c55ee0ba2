use overlook::application::{sidebar_step, SidebarStep};
use overlook::application::{load_failed_message, saved_message, MessageKind, ServerSource};
use overlook::loader::LoadError;

#[test]
fn a_folder_that_cannot_be_opened_says_why() {
    let missing = load_failed_message(&LoadError::MissingConfig("/home/someone/notes".to_string()));
    assert_eq!(missing.kind, MessageKind::Error);
    assert_eq!(missing.text, "No piton.config.pi found in /home/someone/notes");

    let file = LoadError::NotADirectory("/home/someone/notes.txt".to_string());
    assert_eq!(file.message(), "/home/someone/notes.txt is not a directory");

    let io = LoadError::Io("/home/someone/spec: Permission denied (os error 13)".to_string());
    assert_eq!(io.message(), "/home/someone/spec: Permission denied (os error 13)");
}

#[test]
fn saving_says_what_was_saved_or_why_not() {
    let saved = saved_message("spec/index.pi", Ok(()));
    assert_eq!(saved.kind, MessageKind::Info);
    assert_eq!(saved.text, "Saved spec/index.pi");

    let failed = saved_message("spec/index.pi", Err("Could not save spec/index.pi: full".to_string()));
    assert_eq!(failed.kind, MessageKind::Error);
    assert_eq!(failed.text, "Could not save spec/index.pi: full");
}

#[test]
fn the_shipped_server_is_the_default() {
    assert_eq!(ServerSource::default(), ServerSource::Piton);
}

#[test]
fn the_sidebar_follows_the_selection() {
    assert_eq!(sidebar_step(true, Some(3), None), SidebarStep::Open(3));
    assert_eq!(sidebar_step(true, Some(3), Some(3)), SidebarStep::Keep);
    assert_eq!(sidebar_step(true, Some(4), Some(3)), SidebarStep::Open(4));
    assert_eq!(sidebar_step(true, None, Some(3)), SidebarStep::Close);
    assert_eq!(sidebar_step(false, Some(3), Some(3)), SidebarStep::Close);
}
