//! The text side of handing a draft to an external editor: which command to
//! run, and what to make of the text that comes back.

use vstd::prelude::*;
use vstd::string::StringExecFns;
use crate::text::{chars_of, copy_range, string_of, string_views, text_view};

verus! {

/// The character is white space: one of the characters with the Unicode
/// property `White_Space`.
pub open spec fn is_white_space(c: char) -> bool {
    ('\u{9}' <= c && c <= '\u{d}') || c == ' ' || c == '\u{85}' || c == '\u{a0}' || c
        == '\u{1680}' || ('\u{2000}' <= c && c <= '\u{200a}') || c == '\u{2028}' || c
        == '\u{2029}' || c == '\u{202f}' || c == '\u{205f}' || c == '\u{3000}'
}

/// `s` without the white space at its start.
pub open spec fn without_leading_space(s: Seq<char>) -> Seq<char>
    decreases s.len(),
{
    if s.len() > 0 && is_white_space(s[0]) {
        without_leading_space(s.drop_first())
    } else {
        s
    }
}

/// `s` without the white space at its end.
pub open spec fn without_trailing_space(s: Seq<char>) -> Seq<char>
    decreases s.len(),
{
    if s.len() > 0 && is_white_space(s.last()) {
        without_trailing_space(s.drop_last())
    } else {
        s
    }
}

/// `s` without the white space at its start and at its end.
pub open spec fn trimmed(s: Seq<char>) -> Seq<char> {
    without_trailing_space(without_leading_space(s))
}

/// The words with one space between each two.
pub open spec fn joined(words: Seq<Seq<char>>) -> Seq<char>
    decreases words.len(),
{
    if words.len() == 0 {
        Seq::empty()
    } else if words.len() == 1 {
        words[0]
    } else {
        joined(words.drop_last()) + seq![' '] + words.last()
    }
}

/// `s` without the one line ending at its end: a line feed, a carriage
/// return, or a carriage return and a line feed.
pub open spec fn without_final_newline(s: Seq<char>) -> Seq<char> {
    if s.len() > 0 && s.last() == '\n' {
        if s.len() > 1 && s[s.len() - 2] == '\r' {
            s.take(s.len() - 2)
        } else {
            s.take(s.len() - 1)
        }
    } else if s.len() > 0 && s.last() == '\r' {
        s.take(s.len() - 1)
    } else {
        s
    }
}

fn white_space(c: char) -> (yes: bool)
    ensures
        yes == is_white_space(c),
{
    ('\u{9}' <= c && c <= '\u{d}') || c == ' ' || c == '\u{85}' || c == '\u{a0}' || c
        == '\u{1680}' || ('\u{2000}' <= c && c <= '\u{200a}') || c == '\u{2028}' || c
        == '\u{2029}' || c == '\u{202f}' || c == '\u{205f}' || c == '\u{3000}'
}

/// `text` without the white space at its start and at its end.
pub fn trim(text: &str) -> (out: String)
    ensures
        out@ == trimmed(text@),
{
    let chars = chars_of(text);
    let n = chars.len();
    let mut a: usize = 0;
    assert(chars@.skip(0) == chars@);
    while a < n && white_space(chars[a])
        invariant
            n == chars.len(),
            a <= n,
            without_leading_space(chars@) == without_leading_space(chars@.skip(a as int)),
        decreases n - a,
    {
        assert(chars@.skip(a as int).drop_first() == chars@.skip(a + 1));
        a += 1;
    }
    assert(without_leading_space(chars@) == chars@.skip(a as int));
    let mut b: usize = n;
    assert(chars@.subrange(a as int, n as int) == chars@.skip(a as int));
    while b > a && white_space(chars[b - 1])
        invariant
            n == chars.len(),
            a <= b <= n,
            trimmed(chars@) == without_trailing_space(chars@.subrange(a as int, b as int)),
        decreases b,
    {
        assert(chars@.subrange(a as int, b as int).drop_last() == chars@.subrange(
            a as int,
            b - 1,
        ));
        b -= 1;
    }
    let kept = copy_range(&chars, a, b);
    string_of(&kept)
}

/// The words of a command with one space between each two.
pub fn join_command(command: &[String]) -> (line: String)
    ensures
        line@ == joined(string_views(command@)),
{
    let ghost words = string_views(command@);
    let mut line = String::new();
    let mut i: usize = 0;
    assert(words.take(0) =~= Seq::<Seq<char>>::empty());
    while i < command.len()
        invariant
            i <= command.len(),
            words == string_views(command@),
            line@ == joined(words.take(i as int)),
        decreases command.len() - i,
    {
        let ghost before = line@;
        assert(words.take(i + 1).drop_last() == words.take(i as int));
        assert(words.take(i + 1).last() == command[i as int]@);
        if i > 0 {
            line.push(' ');
        }
        line.append(command[i].as_str());
        assert(line@ =~= joined(words.take(i + 1)));
        i += 1;
    }
    assert(words.take(command.len() as int) == words);
    line
}

/// `text` without the one line ending at its end.
pub fn trim_trailing_newline(text: String) -> (out: String)
    ensures
        out@ == without_final_newline(text@),
{
    let chars = chars_of(text.as_str());
    let n = chars.len();
    let keep = if n > 0 && chars[n - 1] == '\n' {
        if n > 1 && chars[n - 2] == '\r' {
            n - 2
        } else {
            n - 1
        }
    } else if n > 0 && chars[n - 1] == '\r' {
        n - 1
    } else {
        n
    };
    if keep == n {
        assert(chars@.take(n as int) == chars@);
        return text;
    }
    let kept = copy_range(&chars, 0, keep);
    string_of(&kept)
}

/// The words that `shlex::split` makes of a command line, and `None` where
/// it finds the line erroneous.
pub uninterp spec fn shell_words(line: Seq<char>) -> Option<Seq<Seq<char>>>;

/// The mathematical value of an optional list of strings.
pub open spec fn words_view(words: Option<Vec<String>>) -> Option<Seq<Seq<char>>> {
    match words {
        Some(w) => Some(string_views(w@)),
        None => None,
    }
}

/// Calls `shlex::split`, which splits a command line into words as a POSIX
/// shell does, and gives `None` where the line ends inside a quotation or
/// after a backslash. The contract gives the result its name and claims
/// nothing else of it.
#[verifier::external_body]
fn shlex_split(line: &str) -> (words: Option<Vec<String>>)
    ensures
        words_view(words) == shell_words(line@),
{
    shlex::split(line)
}

/// Why the editor could not be used. The texts of errors of the system and
/// of paths are held as they are shown.
#[derive(Clone, Debug, PartialEq, Eq)]
pub enum ExternalEditorError {
    /// No command is configured and none is known for the platform.
    NoEditorConfigured,
    /// The configured command line, which could not be split into words.
    InvalidCommand(String),
    /// The terminal could not be handed over.
    TerminalRestore(String),
    /// The temporary file could not be made.
    TempFileCreate(String),
    /// The draft could not be written.
    TempFileWrite { path: String, error: String },
    /// The editor could not be started.
    EditorLaunch { command: String, path: String, error: String },
    /// The editor ended without success; `code` is `None` where a signal
    /// ended it.
    EditorExit { command: String, path: String, code: Option<i32> },
    /// The edited text could not be read.
    TempFileRead { path: String, error: String },
    /// The edited text is not UTF-8.
    TempFileDecode { path: String, error: String },
    /// An error from elsewhere.
    Extension(String),
}

/// The mathematical value of an `ExternalEditorError`.
pub enum EditorErrorView {
    NoEditorConfigured,
    InvalidCommand(Seq<char>),
    TerminalRestore(Seq<char>),
    TempFileCreate(Seq<char>),
    TempFileWrite { path: Seq<char>, error: Seq<char> },
    EditorLaunch { command: Seq<char>, path: Seq<char>, error: Seq<char> },
    EditorExit { command: Seq<char>, path: Seq<char>, code: Option<i32> },
    TempFileRead { path: Seq<char>, error: Seq<char> },
    TempFileDecode { path: Seq<char>, error: Seq<char> },
    Extension(Seq<char>),
}

impl View for ExternalEditorError {
    type V = EditorErrorView;

    open spec fn view(&self) -> EditorErrorView {
        match self {
            ExternalEditorError::NoEditorConfigured => EditorErrorView::NoEditorConfigured,
            ExternalEditorError::InvalidCommand(c) => EditorErrorView::InvalidCommand(c@),
            ExternalEditorError::TerminalRestore(e) => EditorErrorView::TerminalRestore(e@),
            ExternalEditorError::TempFileCreate(e) => EditorErrorView::TempFileCreate(e@),
            ExternalEditorError::TempFileWrite { path, error } => EditorErrorView::TempFileWrite {
                path: path@,
                error: error@,
            },
            ExternalEditorError::EditorLaunch {
                command,
                path,
                error,
            } => EditorErrorView::EditorLaunch { command: command@, path: path@, error: error@ },
            ExternalEditorError::EditorExit { command, path, code } => EditorErrorView::EditorExit {
                command: command@,
                path: path@,
                code: *code,
            },
            ExternalEditorError::TempFileRead { path, error } => EditorErrorView::TempFileRead {
                path: path@,
                error: error@,
            },
            ExternalEditorError::TempFileDecode { path, error } => EditorErrorView::TempFileDecode {
                path: path@,
                error: error@,
            },
            ExternalEditorError::Extension(m) => EditorErrorView::Extension(m@),
        }
    }
}

/// The digit `d` as a character.
pub open spec fn digit_char(d: int) -> char {
    (('0' as u8) + d) as u8 as char
}

/// The natural number `n` in decimal digits.
pub open spec fn digits(n: nat) -> Seq<char>
    decreases n,
{
    if n < 10 {
        seq![digit_char(n as int)]
    } else {
        digits(n / 10).push(digit_char((n % 10) as int))
    }
}

/// The integer `n` in decimal digits, after a minus sign where it is
/// negative.
pub open spec fn decimal(n: int) -> Seq<char> {
    if n < 0 {
        seq!['-'] + digits((-n) as nat)
    } else {
        digits(n as nat)
    }
}

/// How the end of the editor is named in a message: by its exit code, or as
/// a signal.
pub open spec fn exit_text(code: Option<i32>) -> Seq<char> {
    match code {
        Some(c) => decimal(c as int),
        None => "signal"@,
    }
}

/// The message that tells the user of the error.
pub open spec fn message_of(error: EditorErrorView) -> Seq<char> {
    match error {
        EditorErrorView::NoEditorConfigured => "Cannot open an external editor: set $VISUAL or $EDITOR, or install a default editor."@,
        EditorErrorView::InvalidCommand(command) => "Unable to parse editor command \""@ + command
            + "\". Check $VISUAL / $EDITOR."@,
        EditorErrorView::TerminalRestore(error) => "Could not hand control to the editor (restoring terminal state failed): "@
            + error,
        EditorErrorView::TempFileCreate(error) => "Failed to create a temporary file for the editor: "@
            + error,
        EditorErrorView::TempFileWrite { path, error } => "Failed to write composer text to temporary file "@
            + path + ": "@ + error,
        EditorErrorView::EditorLaunch { command, path, error } => "Failed to launch editor \""@
            + command + "\" for temporary file "@ + path + ": "@ + error,
        EditorErrorView::EditorExit { command, path, code } => "Editor \""@ + command
            + "\" exited with status "@ + exit_text(code) + " for temporary file "@ + path
            + "; keeping the existing text."@,
        EditorErrorView::TempFileRead { path, error } => "Failed to read edited text from "@ + path
            + ": "@ + error,
        EditorErrorView::TempFileDecode { path, error } => "Edited file "@ + path
            + " is not valid UTF-8: "@ + error,
        EditorErrorView::Extension(message) => "Extension error: "@ + message,
    }
}

fn push_digits(n: u32, out: &mut String)
    ensures
        final(out)@ == old(out)@ + digits(n as nat),
    decreases n,
{
    if n >= 10 {
        push_digits(n / 10, out);
    }
    let d = (n % 10) as u8;
    out.push((48u8 + d) as char);
    assert(final(out)@ =~= old(out)@ + digits(n as nat));
}

/// The integer `n` in decimal digits.
pub fn decimal_string(n: i32) -> (out: String)
    ensures
        out@ == decimal(n as int),
{
    let mut out = String::new();
    if n < 0 {
        out.push('-');
        let magnitude: u32 = if n == i32::MIN {
            2147483648u32
        } else {
            (-n) as u32
        };
        push_digits(magnitude, &mut out);
    } else {
        push_digits(n as u32, &mut out);
    }
    assert(out@ =~= decimal(n as int));
    out
}

impl ExternalEditorError {
    /// The message that tells the user of the error.
    pub fn user_message(&self) -> (message: String)
        ensures
            message@ == message_of(self@),
    {
        let mut message = String::new();
        match self {
            ExternalEditorError::NoEditorConfigured => {
                message.append(
                    "Cannot open an external editor: set $VISUAL or $EDITOR, or install a default editor.",
                );
            },
            ExternalEditorError::InvalidCommand(command) => {
                message.append("Unable to parse editor command \"");
                message.append(command.as_str());
                message.append("\". Check $VISUAL / $EDITOR.");
            },
            ExternalEditorError::TerminalRestore(error) => {
                message.append(
                    "Could not hand control to the editor (restoring terminal state failed): ",
                );
                message.append(error.as_str());
            },
            ExternalEditorError::TempFileCreate(error) => {
                message.append("Failed to create a temporary file for the editor: ");
                message.append(error.as_str());
            },
            ExternalEditorError::TempFileWrite { path, error } => {
                message.append("Failed to write composer text to temporary file ");
                message.append(path.as_str());
                message.append(": ");
                message.append(error.as_str());
            },
            ExternalEditorError::EditorLaunch { command, path, error } => {
                message.append("Failed to launch editor \"");
                message.append(command.as_str());
                message.append("\" for temporary file ");
                message.append(path.as_str());
                message.append(": ");
                message.append(error.as_str());
            },
            ExternalEditorError::EditorExit { command, path, code } => {
                message.append("Editor \"");
                message.append(command.as_str());
                message.append("\" exited with status ");
                match code {
                    Some(c) => {
                        let text = decimal_string(*c);
                        message.append(text.as_str());
                    },
                    None => {
                        message.append("signal");
                    },
                }
                message.append(" for temporary file ");
                message.append(path.as_str());
                message.append("; keeping the existing text.");
            },
            ExternalEditorError::TempFileRead { path, error } => {
                message.append("Failed to read edited text from ");
                message.append(path.as_str());
                message.append(": ");
                message.append(error.as_str());
            },
            ExternalEditorError::TempFileDecode { path, error } => {
                message.append("Edited file ");
                message.append(path.as_str());
                message.append(" is not valid UTF-8: ");
                message.append(error.as_str());
            },
            ExternalEditorError::Extension(text) => {
                message.append("Extension error: ");
                message.append(text.as_str());
            },
        }
        assert(message@ =~= message_of(self@));
        message
    }
}

/// The command that a configured value stands for, once the value without
/// the white space around it is split into `parsed`: the words, or the
/// error that the value cannot be split.
pub open spec fn parsed_value(value: Seq<char>, parsed: Option<Seq<Seq<char>>>) -> Result<
    Option<Seq<Seq<char>>>,
    EditorErrorView,
> {
    match parsed {
        Some(words) => Ok(Some(words)),
        None => Err(EditorErrorView::InvalidCommand(value)),
    }
}

/// The command that a configured value stands for: none where the value is
/// empty or white space, else the words of the value without the white space
/// around it.
pub open spec fn editor_value(value: Seq<char>) -> Result<Option<Seq<Seq<char>>>, EditorErrorView> {
    if trimmed(value).len() == 0 {
        Ok(None)
    } else {
        parsed_value(value, shell_words(trimmed(value)))
    }
}

/// The command that a setting stands for, which may be unset.
pub open spec fn setting_value(setting: Option<Seq<char>>) -> Result<
    Option<Seq<Seq<char>>>,
    EditorErrorView,
> {
    match setting {
        Some(value) => editor_value(value),
        None => Ok(None),
    }
}

/// The editor that is run where none is configured.
pub open spec fn default_command(windows: bool) -> Option<Seq<Seq<char>>> {
    if windows {
        Some(seq!["notepad"@])
    } else {
        Some(seq!["nano"@])
    }
}

/// The command to run: the override; failing that, what `visual` stands for;
/// failing that, what `editor` stands for; failing that, the default. A
/// setting that cannot be split is an error and ends the search.
pub open spec fn resolved_command(
    override_command: Option<Seq<Seq<char>>>,
    visual: Option<Seq<char>>,
    editor: Option<Seq<char>>,
    windows: bool,
) -> Result<Seq<Seq<char>>, EditorErrorView> {
    match override_command {
        Some(command) => Ok(command),
        None => match setting_value(visual) {
            Err(e) => Err(e),
            Ok(Some(command)) => Ok(command),
            Ok(None) => match setting_value(editor) {
                Err(e) => Err(e),
                Ok(Some(command)) => Ok(command),
                Ok(None) => match default_command(windows) {
                    Some(command) => Ok(command),
                    None => Err(EditorErrorView::NoEditorConfigured),
                },
            },
        },
    }
}

/// The mathematical value of what `normalize_editor_value` returns.
pub open spec fn value_view(result: Result<Option<Vec<String>>, ExternalEditorError>) -> Result<
    Option<Seq<Seq<char>>>,
    EditorErrorView,
> {
    match result {
        Ok(words) => Ok(words_view(words)),
        Err(e) => Err(e@),
    }
}

/// The mathematical value of what `resolve_editor_command` returns.
pub open spec fn command_view(result: Result<Vec<String>, ExternalEditorError>) -> Result<
    Seq<Seq<char>>,
    EditorErrorView,
> {
    match result {
        Ok(words) => Ok(string_views(words@)),
        Err(e) => Err(e@),
    }
}

/// The command that the configured value `value` stands for, once the value
/// without the white space around it is split into `parsed`.
pub fn parsed_editor_value(value: String, parsed: Option<Vec<String>>) -> (result: Result<
    Option<Vec<String>>,
    ExternalEditorError,
>)
    ensures
        value_view(result) == parsed_value(value@, words_view(parsed)),
{
    match parsed {
        Some(words) => Ok(Some(words)),
        None => Err(ExternalEditorError::InvalidCommand(value)),
    }
}

/// The command that the configured value `value` stands for.
pub fn normalize_editor_value(value: String) -> (result: Result<
    Option<Vec<String>>,
    ExternalEditorError,
>)
    ensures
        value_view(result) == editor_value(value@),
{
    let line = trim(value.as_str());
    if line.as_str().is_empty() {
        return Ok(None);
    }
    let parsed = shlex_split(line.as_str());
    parsed_editor_value(value, parsed)
}

/// The editor that is run where none is configured: `notepad` on Windows,
/// `nano` elsewhere.
pub fn default_editor_command(windows: bool) -> (command: Option<Vec<String>>)
    ensures
        words_view(command) == default_command(windows),
{
    let mut command: Vec<String> = Vec::new();
    if windows {
        command.push("notepad".to_owned());
    } else {
        command.push("nano".to_owned());
    }
    assert(string_views(command@) =~= default_command(windows)->0);
    Some(command)
}

fn copy_strings(strings: &Vec<String>) -> (out: Vec<String>)
    ensures
        string_views(out@) == string_views(strings@),
{
    let mut out: Vec<String> = Vec::new();
    let mut i: usize = 0;
    while i < strings.len()
        invariant
            i <= strings.len(),
            string_views(out@) == string_views(strings@).take(i as int),
        decreases strings.len() - i,
    {
        let ghost before = out@;
        let copy = strings[i].clone();
        assert(copy@ == strings@[i as int]@);
        out.push(copy);
        assert(string_views(out@) =~= string_views(before).push(copy@));
        assert(string_views(out@) =~= string_views(strings@).take(i + 1));
        i += 1;
    }
    assert(string_views(strings@).take(strings.len() as int) == string_views(strings@));
    out
}

/// The command to run, given the override, the values of the settings
/// `VISUAL` and `EDITOR` where they are set, and whether the platform is
/// Windows.
pub fn resolve_editor_command(
    override_command: &Option<Vec<String>>,
    visual: Option<String>,
    editor: Option<String>,
    windows: bool,
) -> (result: Result<Vec<String>, ExternalEditorError>)
    ensures
        command_view(result) == resolved_command(
            words_view(*override_command),
            text_view(visual),
            text_view(editor),
            windows,
        ),
{
    if let Some(command) = override_command {
        return Ok(copy_strings(command));
    }
    if let Some(value) = visual {
        match normalize_editor_value(value) {
            Err(e) => {
                return Err(e);
            },
            Ok(Some(command)) => {
                return Ok(command);
            },
            Ok(None) => {},
        }
    }
    if let Some(value) = editor {
        match normalize_editor_value(value) {
            Err(e) => {
                return Err(e);
            },
            Ok(Some(command)) => {
                return Ok(command);
            },
            Ok(None) => {},
        }
    }
    if let Some(command) = default_editor_command(windows) {
        return Ok(command);
    }
    Err(ExternalEditorError::NoEditorConfigured)
}

/// What the end of the editor means: nothing where it ended with success,
/// else the error that names the command, the temporary file and the exit
/// code.
pub fn editor_exit(command: &[String], path: String, success: bool, code: Option<i32>) -> (result:
    Result<(), ExternalEditorError>)
    ensures
        success ==> result is Ok,
        !success ==> result is Err && result->Err_0@ == (EditorErrorView::EditorExit {
            command: joined(string_views(command@)),
            path: path@,
            code,
        }),
{
    if success {
        Ok(())
    } else {
        Err(ExternalEditorError::EditorExit { command: join_command(command), path, code })
    }
}

/// Holds what went wrong when the terminal was handed to the editor, until
/// it is asked for.
pub struct TerminalModeGuard {
    restore_error: Option<String>,
}

impl TerminalModeGuard {
    /// The text of the error that is held.
    pub closed spec fn restore_error(&self) -> Option<Seq<char>> {
        text_view(self.restore_error)
    }

    /// A guard that holds the error of `restored`, if it is one.
    pub fn new(restored: Result<(), String>) -> (guard: Self)
        ensures
            guard.restore_error() == match restored {
                Ok(_) => None,
                Err(e) => Some(e@),
            },
    {
        match restored {
            Ok(_) => TerminalModeGuard { restore_error: None },
            Err(e) => TerminalModeGuard { restore_error: Some(e) },
        }
    }

    /// Hands out the error that is held, and holds none from then on.
    pub fn take_restore_error(&mut self) -> (error: Option<String>)
        ensures
            text_view(error) == old(self).restore_error(),
            final(self).restore_error() is None,
    {
        self.restore_error.take()
    }
}

} // verus!
