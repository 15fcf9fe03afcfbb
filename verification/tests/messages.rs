use session_normalizer::editor::ExternalEditorError;

fn s(text: &str) -> String {
    text.to_string()
}

#[test]
fn message_without_an_editor() {
    assert_eq!(
        ExternalEditorError::NoEditorConfigured.user_message(),
        "Cannot open an external editor: set $VISUAL or $EDITOR, or install a default editor."
    );
}

#[test]
fn message_for_a_command_that_cannot_be_split() {
    assert_eq!(
        ExternalEditorError::InvalidCommand(s("vim \"x")).user_message(),
        "Unable to parse editor command \"vim \"x\". Check $VISUAL / $EDITOR."
    );
}

#[test]
fn messages_for_the_terminal_and_the_temporary_file() {
    assert_eq!(
        ExternalEditorError::TerminalRestore(s("denied")).user_message(),
        "Could not hand control to the editor (restoring terminal state failed): denied"
    );
    assert_eq!(
        ExternalEditorError::TempFileCreate(s("disk full")).user_message(),
        "Failed to create a temporary file for the editor: disk full"
    );
    assert_eq!(
        ExternalEditorError::TempFileWrite { path: s("\"/tmp/a.txt\""), error: s("disk full") }
            .user_message(),
        "Failed to write composer text to temporary file \"/tmp/a.txt\": disk full"
    );
    assert_eq!(
        ExternalEditorError::TempFileRead { path: s("\"/tmp/a.txt\""), error: s("gone") }
            .user_message(),
        "Failed to read edited text from \"/tmp/a.txt\": gone"
    );
    assert_eq!(
        ExternalEditorError::TempFileDecode { path: s("\"/tmp/a.txt\""), error: s("bad byte") }
            .user_message(),
        "Edited file \"/tmp/a.txt\" is not valid UTF-8: bad byte"
    );
}

#[test]
fn messages_for_the_editor() {
    assert_eq!(
        ExternalEditorError::EditorLaunch {
            command: s("vi -e"),
            path: s("\"/tmp/a.txt\""),
            error: s("not found"),
        }
        .user_message(),
        "Failed to launch editor \"vi -e\" for temporary file \"/tmp/a.txt\": not found"
    );
    assert_eq!(
        ExternalEditorError::EditorExit { command: s("vi"), path: s("\"/tmp/a.txt\""), code: Some(-3) }
            .user_message(),
        "Editor \"vi\" exited with status -3 for temporary file \"/tmp/a.txt\"; keeping the existing text."
    );
    assert_eq!(
        ExternalEditorError::EditorExit { command: s("vi"), path: s("\"/tmp/a.txt\""), code: None }
            .user_message(),
        "Editor \"vi\" exited with status signal for temporary file \"/tmp/a.txt\"; keeping the existing text."
    );
}

#[test]
fn message_from_elsewhere() {
    assert_eq!(ExternalEditorError::Extension(s("boom")).user_message(), "Extension error: boom");
}
