use std::path::Path;

use session_normalizer::cwd::normalize_cwd;
use session_normalizer::editor::{decimal_string, trim};
use session_normalizer::names::{file_stem, has_log_extension, timestamp_segment_from_filename};

fn key_by_string_operations(cwd: &str) -> String {
    cwd.replace('\\', "/")
        .trim_start_matches("//?/")
        .trim_start_matches("\\\\?\\")
        .trim_end_matches('/')
        .chars()
        .flat_map(char::to_lowercase)
        .collect()
}

#[test]
fn key_agrees_with_the_string_operations_of_std() {
    let samples = [
        "",
        "/",
        "//",
        "//?",
        "//?/",
        "\\\\?\\",
        "\\\\?\\C:\\Users\\Bob\\",
        "//?///?/x//",
        "/?//?/x",
        "C:/Users/Bob",
        "/home/\u{c4}rger/Dir/",
        "/HOME/\u{c9}LAN/\u{130}/\u{1c5}/\u{212a}",
        "relative\\path",
        "_unknown",
        "/a/b/c////",
        "//?/\\\\?\\x",
    ];
    for cwd in samples {
        assert_eq!(normalize_cwd(cwd), key_by_string_operations(cwd), "{cwd:?}");
    }
}

#[test]
fn extension_and_stem_agree_with_std_paths() {
    let names = [
        "rollout-x.jsonl",
        "rollout-x.JSONL",
        "a.b.c",
        "plain",
        ".hidden",
        ".hidden.jsonl",
        "a.",
        "a..jsonl",
        "x.jsonl.mixed.bak",
        "rollout-2024-05-01T10-00-00-id.jsonl",
    ];
    for name in names {
        let path = Path::new(name);
        let is_log = path.extension().is_some_and(|ext| ext.eq_ignore_ascii_case("jsonl"));
        assert_eq!(has_log_extension(name), is_log, "{name:?}");
        let stem = path.file_stem().map(|s| s.to_string_lossy().into_owned());
        assert_eq!(Some(file_stem(name)), stem, "{name:?}");
    }
}

#[test]
fn timestamp_agrees_with_the_string_operations_of_std() {
    let names = ["rollout-a-b-c.jsonl", "rollout-x.jsonl", "rollout--.jsonl", "x-a-b.jsonl", "rollout-a-b"];
    for name in names {
        let stem = Path::new(name).file_stem().map(|s| s.to_string_lossy().into_owned());
        let expected = stem.and_then(|stem| {
            let rest = stem.strip_prefix("rollout-")?;
            let pos = rest.rfind('-')?;
            Some(rest[..pos].to_string())
        });
        assert_eq!(timestamp_segment_from_filename(name), expected, "{name:?}");
    }
}

#[test]
fn white_space_is_what_std_takes_for_white_space() {
    for code in 0..=0x10ffffu32 {
        if let Some(c) = char::from_u32(code) {
            let text = c.to_string();
            assert_eq!(trim(&text).is_empty(), c.is_whitespace(), "{code:#x}");
        }
    }
}

#[test]
fn decimal_agrees_with_std() {
    for n in [0, 1, 9, 10, 11, 99, 100, 255, 256, 1000, 65535, i32::MAX, -1, -9, -10, -255, i32::MIN, i32::MIN + 1] {
        assert_eq!(decimal_string(n), n.to_string());
    }
}

#[test]
fn lower_case_is_the_lowercase_mapping_of_std() {
    let blocks = [0u32..0x3000, 0xa640..0xa7ff, 0xff00..0xffef, 0x10400..0x10450, 0x1e900..0x1e960];
    for block in blocks {
        for code in block {
            let Some(c) = char::from_u32(code) else { continue };
            if c == '/' || c == '\\' {
                continue;
            }
            let expected: String = c.to_lowercase().collect();
            assert_eq!(normalize_cwd(&c.to_string()), expected, "{code:#x}");
        }
    }
}
