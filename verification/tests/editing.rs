use session_normalizer::editor::{
    decimal_string, default_editor_command, editor_exit, join_command, normalize_editor_value,
    parsed_editor_value, resolve_editor_command, trim, trim_trailing_newline, ExternalEditorError,
    TerminalModeGuard,
};

fn words(list: &[&str]) -> Vec<String> {
    list.iter().map(|s| s.to_string()).collect()
}

#[test]
fn one_line_ending_is_removed() {
    assert_eq!(trim_trailing_newline("abc\n".to_string()), "abc");
    assert_eq!(trim_trailing_newline("abc\r\n".to_string()), "abc");
    assert_eq!(trim_trailing_newline("abc\r".to_string()), "abc");
    assert_eq!(trim_trailing_newline("abc".to_string()), "abc");
    assert_eq!(trim_trailing_newline("abc\n\n".to_string()), "abc\n");
    assert_eq!(trim_trailing_newline("abc\n\r".to_string()), "abc\n");
    assert_eq!(trim_trailing_newline("\n".to_string()), "");
    assert_eq!(trim_trailing_newline(String::new()), "");
}

#[test]
fn command_is_joined_with_spaces() {
    assert_eq!(join_command(&words(&["code", "--wait", "a b"])), "code --wait a b");
    assert_eq!(join_command(&words(&["vi"])), "vi");
    assert_eq!(join_command(&words(&[])), "");
    assert_eq!(join_command(&words(&["", ""])), " ");
}

#[test]
fn default_editor_by_platform() {
    assert_eq!(default_editor_command(true), Some(words(&["notepad"])));
    assert_eq!(default_editor_command(false), Some(words(&["nano"])));
}

#[test]
fn white_space_around_a_text_is_removed() {
    assert_eq!(trim("  code -w \t\n"), "code -w");
    assert_eq!(trim("\u{a0}\u{3000}x\u{2003}"), "x");
    assert_eq!(trim(" \t "), "");
    assert_eq!(trim("a\u{200b}"), "a\u{200b}");
    assert_eq!(trim("  a b  "), "  a b  ".trim());
}

#[test]
fn configured_value_is_split_like_a_shell_line() {
    assert_eq!(
        normalize_editor_value("  code --wait ".to_string()),
        Ok(Some(words(&["code", "--wait"])))
    );
    assert_eq!(
        normalize_editor_value("\"my editor\" -w 'a b'".to_string()),
        Ok(Some(words(&["my editor", "-w", "a b"])))
    );
}

#[test]
fn empty_value_configures_nothing() {
    assert_eq!(normalize_editor_value(String::new()), Ok(None));
    assert_eq!(normalize_editor_value(" \t\n".to_string()), Ok(None));
}

#[test]
fn value_that_cannot_be_split_is_an_error() {
    assert_eq!(
        normalize_editor_value(" vim \"unclosed ".to_string()),
        Err(ExternalEditorError::InvalidCommand(" vim \"unclosed ".to_string()))
    );
    assert_eq!(
        parsed_editor_value("v".to_string(), None),
        Err(ExternalEditorError::InvalidCommand("v".to_string()))
    );
    assert_eq!(parsed_editor_value("v".to_string(), Some(words(&["v"]))), Ok(Some(words(&["v"]))));
}

#[test]
fn override_comes_before_the_settings() {
    let chosen = resolve_editor_command(
        &Some(words(&["ed", "-s"])),
        Some("vim".to_string()),
        Some("nano".to_string()),
        false,
    );
    assert_eq!(chosen, Ok(words(&["ed", "-s"])));
}

#[test]
fn visual_comes_before_editor_and_editor_before_the_default() {
    let both = resolve_editor_command(&None, Some("vim -f".to_string()), Some("nano".to_string()), false);
    assert_eq!(both, Ok(words(&["vim", "-f"])));
    let blank_visual = resolve_editor_command(&None, Some("  ".to_string()), Some("nano -w".to_string()), false);
    assert_eq!(blank_visual, Ok(words(&["nano", "-w"])));
    let editor_only = resolve_editor_command(&None, None, Some("emacs".to_string()), true);
    assert_eq!(editor_only, Ok(words(&["emacs"])));
    assert_eq!(resolve_editor_command(&None, None, None, true), Ok(words(&["notepad"])));
    assert_eq!(resolve_editor_command(&None, Some(String::new()), Some(String::new()), false), Ok(words(&["nano"])));
}

#[test]
fn setting_that_cannot_be_split_ends_the_search() {
    let bad_visual = resolve_editor_command(&None, Some("'x".to_string()), Some("nano".to_string()), false);
    assert_eq!(bad_visual, Err(ExternalEditorError::InvalidCommand("'x".to_string())));
    let bad_editor = resolve_editor_command(&None, None, Some("a\\".to_string()), false);
    assert_eq!(bad_editor, Err(ExternalEditorError::InvalidCommand("a\\".to_string())));
}

#[test]
fn integers_in_decimal() {
    assert_eq!(decimal_string(0), "0");
    assert_eq!(decimal_string(7), "7");
    assert_eq!(decimal_string(130), "130");
    assert_eq!(decimal_string(-1), "-1");
    assert_eq!(decimal_string(i32::MAX), "2147483647");
    assert_eq!(decimal_string(i32::MIN), "-2147483648");
}

#[test]
fn end_of_the_editor() {
    assert_eq!(editor_exit(&words(&["vi", "-e"]), "\"/tmp/x\"".to_string(), true, Some(0)), Ok(()));
    assert_eq!(
        editor_exit(&words(&["vi", "-e"]), "\"/tmp/x\"".to_string(), false, Some(2)),
        Err(ExternalEditorError::EditorExit {
            command: "vi -e".to_string(),
            path: "\"/tmp/x\"".to_string(),
            code: Some(2),
        })
    );
}

#[test]
fn guard_hands_its_error_out_once() {
    let mut guard = TerminalModeGuard::new(Err("broken pipe".to_string()));
    assert_eq!(guard.take_restore_error(), Some("broken pipe".to_string()));
    assert_eq!(guard.take_restore_error(), None);
    let mut fine = TerminalModeGuard::new(Ok(()));
    assert_eq!(fine.take_restore_error(), None);
}
