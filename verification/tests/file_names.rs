use session_normalizer::names::{
    backup_file_name, disambiguated_file_name, file_stem, has_log_extension, rollout_file_name,
    timestamp_segment_from_filename,
};

#[test]
fn log_extension_in_either_case() {
    assert!(has_log_extension("rollout-x.jsonl"));
    assert!(has_log_extension("rollout-x.JSONL"));
    assert!(has_log_extension("a.b.JsonL"));
}

#[test]
fn other_names_are_no_logs() {
    assert!(!has_log_extension("rollout-x.json"));
    assert!(!has_log_extension("rollout-x.jsonl.mixed.bak"));
    assert!(!has_log_extension("jsonl"));
    assert!(!has_log_extension(".jsonl"));
    assert!(!has_log_extension("rollout-x.jsonlx"));
    assert!(!has_log_extension("rollout-x."));
    assert!(!has_log_extension(".."));
    assert!(!has_log_extension(""));
}

#[test]
fn stem_ends_before_the_last_dot() {
    assert_eq!(file_stem("rollout-x.jsonl"), "rollout-x");
    assert_eq!(file_stem("a.b.c"), "a.b");
    assert_eq!(file_stem("plain"), "plain");
    assert_eq!(file_stem(".hidden"), ".hidden");
    assert_eq!(file_stem(".."), "..");
    assert_eq!(file_stem("a."), "a");
}

#[test]
fn timestamp_is_read_from_the_name() {
    assert_eq!(
        timestamp_segment_from_filename("rollout-2024-05-01T10-00-00-abc.jsonl"),
        Some("2024-05-01T10-00-00".to_string())
    );
    assert_eq!(timestamp_segment_from_filename("rollout-a-b-c.jsonl"), Some("a-b".to_string()));
    assert_eq!(timestamp_segment_from_filename("rollout--id.jsonl"), Some("".to_string()));
}

#[test]
fn names_of_another_form_give_no_timestamp() {
    assert_eq!(timestamp_segment_from_filename("rollout-x.jsonl"), None);
    assert_eq!(timestamp_segment_from_filename("session-a-b.jsonl"), None);
    assert_eq!(timestamp_segment_from_filename("rollout"), None);
    assert_eq!(timestamp_segment_from_filename(""), None);
}

#[test]
fn names_that_a_split_gives() {
    assert_eq!(rollout_file_name("2024-05-01T10-00-00", "id1"), "rollout-2024-05-01T10-00-00-id1.jsonl");
    assert_eq!(backup_file_name("rollout-x.jsonl"), "rollout-x.jsonl.mixed.bak");
    assert!(has_log_extension(&rollout_file_name("t", "i")));
    assert!(!has_log_extension(&backup_file_name("rollout-x.jsonl")));
}

#[test]
fn name_taken_on_a_collision() {
    let renamed = disambiguated_file_name("rollout-x.jsonl", "0199-new");
    assert_eq!(renamed, "rollout-x-0199-new.jsonl");
    assert_ne!(renamed, "rollout-x.jsonl");
    assert!(has_log_extension(&renamed));
    assert_eq!(disambiguated_file_name("noext", "n"), "noext-n.jsonl");
}

#[test]
fn name_made_by_a_split_gives_its_timestamp_back() {
    let name = rollout_file_name("2025-01-02T03-04-05", "abcdef");
    assert_eq!(timestamp_segment_from_filename(&name), Some("2025-01-02T03-04-05".to_string()));
}
