use overlook::editor::Editor;

const PATH: &str = "/tmp/overlook-editor/Thing.pi";
const NOT_FOUND: &str = "No such file or directory (os error 2)";

#[test]
fn opening_a_file_reads_it_and_starts_clean() {
    let editor = Editor::open(0, PATH, "spec/Thing.pi", Ok("export anchor Thing:\n".to_string()));

    assert_eq!(editor.text(), "export anchor Thing:\n");
    assert_eq!(editor.rel(), "spec/Thing.pi");
    assert_eq!(editor.file(), 0);
    assert!(!editor.is_dirty(), "an untouched file has nothing to save");
    assert!(editor.error().is_none());
}

#[test]
fn a_file_that_cannot_be_read_says_so() {
    let editor = Editor::open(0, "/nowhere/Missing.pi", "Missing.pi", Err(NOT_FOUND.to_string()));

    assert!(editor.text().is_empty());
    assert!(
        editor.error().unwrap().contains("Missing.pi"),
        "the error names the file"
    );
    assert!(!editor.is_dirty());
}

#[test]
fn editing_makes_the_editor_dirty_and_saving_writes_the_file() {
    let mut editor = Editor::open(0, PATH, "Thing.pi", Ok("one\n".to_string()));

    editor.set_text(format!("{}two\n", editor.text()));
    assert!(editor.is_dirty());

    editor.saved(Ok(())).expect("the file was written");
    assert_eq!(editor.text(), "one\ntwo\n");
    assert!(!editor.is_dirty(), "what is on disk needs no saving");
}

#[test]
fn cancelling_goes_back_to_what_is_on_disk() {
    let mut editor = Editor::open(0, PATH, "Thing.pi", Ok("one\n".to_string()));

    editor.set_text(String::from("something else\n"));
    editor.cancel();

    assert_eq!(editor.text(), "one\n");
    assert!(!editor.is_dirty());
}

#[test]
fn saving_a_file_that_cannot_be_written_reports_the_failure() {
    let mut editor = Editor::open(0, "/nowhere/Missing.pi", "Missing.pi", Err(NOT_FOUND.to_string()));
    editor.set_text(String::from("anything"));

    let error = editor.saved(Err(NOT_FOUND.to_string())).expect_err("there is nowhere to write");
    assert!(error.contains("Missing.pi"));
    assert_eq!(editor.error(), Some(error.as_str()));
    assert!(editor.is_dirty(), "a failed save leaves the edits alone");
}

#[test]
fn the_failure_messages_say_what_was_being_done() {
    let mut editor = Editor::open(3, PATH, "spec/Thing.pi", Err("denied".to_string()));
    assert_eq!(editor.error(), Some("Could not read spec/Thing.pi: denied"));
    let error = editor.saved(Err("full".to_string())).unwrap_err();
    assert_eq!(error, "Could not save spec/Thing.pi: full");
    assert_eq!(editor.path(), PATH);
    editor.saved(Ok(())).unwrap();
    assert!(editor.error().is_none(), "a save that works clears the failure");
}
