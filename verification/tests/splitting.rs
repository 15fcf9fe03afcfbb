use session_normalizer::group::group_by_cwd;
use session_normalizer::names::has_log_extension;
use session_normalizer::record::{RecordKind, SessionRecord};
use session_normalizer::split::{plan_split, split_if_mixed, timestamp_segment, SplitOutcome, SplitPlan};

fn meta(id: &str, cwd: &str, body: &str) -> SessionRecord {
    SessionRecord {
        kind: RecordKind::SessionMeta { id: id.to_string(), cwd: cwd.to_string() },
        timestamp: Some("2024-05-01T10:00:00Z".to_string()),
        body: body.to_string(),
    }
}

fn turn(cwd: &str, body: &str) -> SessionRecord {
    SessionRecord {
        kind: RecordKind::TurnContext { cwd: cwd.to_string() },
        timestamp: None,
        body: body.to_string(),
    }
}

fn other(body: &str) -> SessionRecord {
    SessionRecord { kind: RecordKind::Other, timestamp: None, body: body.to_string() }
}

fn ids(n: usize) -> Vec<String> {
    (0..n).map(|i| format!("id{i}")).collect()
}

fn plan_of(outcome: SplitOutcome) -> SplitPlan {
    match outcome {
        SplitOutcome::Split(plan) => plan,
        other => panic!("no split: {other:?}"),
    }
}

fn mixed() -> Vec<SessionRecord> {
    vec![
        meta("old", "/Home/A", "m0"),
        other("a1"),
        turn("/home/b", "t2"),
        other("b3"),
        turn("/home/a/", "t4"),
        other("a5"),
    ]
}

#[test]
fn groups_part_the_lines_by_key() {
    let groups = group_by_cwd(&mixed());
    assert_eq!(groups.len(), 2);
    assert_eq!(groups[0].key, "/home/a");
    assert_eq!(groups[0].cwd, Some("/Home/A".to_string()));
    assert_eq!(groups[0].members, vec![0, 1, 4, 5]);
    assert_eq!(groups[1].key, "/home/b");
    assert_eq!(groups[1].cwd, Some("/home/b".to_string()));
    assert_eq!(groups[1].members, vec![2, 3]);
}

#[test]
fn lines_without_a_working_directory_form_the_unknown_group() {
    let records = vec![other("x0"), other("x1"), turn("/a", "t2")];
    let groups = group_by_cwd(&records);
    assert_eq!(groups.len(), 2);
    assert_eq!(groups[0].key, "_unknown");
    assert_eq!(groups[0].cwd, None);
    assert_eq!(groups[0].members, vec![0, 1]);
    assert_eq!(groups[1].members, vec![2]);
}

#[test]
fn log_of_one_working_directory_is_left_alone() {
    let records = vec![meta("i", "C:\\Users\\Bob\\", "m"), other("x"), turn("c:/users/bob", "t")];
    assert_eq!(plan_split("rollout-t-i.jsonl", &records, &ids(0), "now"), SplitOutcome::Unchanged);
    assert_eq!(plan_split("rollout-t-i.jsonl", &records, &ids(3), "now"), SplitOutcome::Unchanged);
    assert_eq!(split_if_mixed("rollout-t-i.jsonl", &records, &ids(0)), Some(SplitOutcome::Unchanged));
}

#[test]
fn log_without_any_working_directory_is_left_alone() {
    let records = vec![other("x"), other("y")];
    assert_eq!(plan_split("a.jsonl", &records, &ids(0), "now"), SplitOutcome::Unchanged);
    assert_eq!(plan_split("a.jsonl", &Vec::new(), &ids(0), "now"), SplitOutcome::Unchanged);
}

#[test]
fn split_asks_for_one_identifier_for_each_group() {
    assert_eq!(plan_split("a.jsonl", &mixed(), &ids(0), "now"), SplitOutcome::NeedIds { count: 2 });
    assert_eq!(plan_split("a.jsonl", &mixed(), &ids(3), "now"), SplitOutcome::NeedIds { count: 2 });
    assert_eq!(split_if_mixed("a.jsonl", &mixed(), &ids(1)), Some(SplitOutcome::NeedIds { count: 2 }));
}

#[test]
fn log_of_two_working_directories_is_split_in_two() {
    let records = mixed();
    let plan = plan_of(plan_split(
        "rollout-2024-05-01T10-00-00-old.jsonl",
        &records,
        &ids(2),
        "now",
    ));
    assert_eq!(plan.files.len(), 2);
    assert_eq!(plan.backup_name, "rollout-2024-05-01T10-00-00-old.jsonl.mixed.bak");
    assert!(!has_log_extension(&plan.backup_name));
    assert_eq!(plan.files[0].file_name, "rollout-2024-05-01T10-00-00-id0.jsonl");
    assert_eq!(plan.files[1].file_name, "rollout-2024-05-01T10-00-00-id1.jsonl");
    let bodies = |i: usize| -> Vec<String> {
        plan.files[i].records.iter().map(|r| r.body.clone()).collect()
    };
    assert_eq!(bodies(0), vec!["m0", "a1", "t4", "a5"]);
    assert_eq!(bodies(1), vec!["t2", "b3"]);
    assert_eq!(plan.files[0].records.len() + plan.files[1].records.len(), records.len());
}

#[test]
fn head_of_session_takes_the_new_identifier_and_the_group_directory() {
    let records = vec![
        turn("/Srv/App", "t0"),
        meta("old", "/srv/app/", "m1"),
        turn("/x", "t2"),
        meta("old", "/X", "m3"),
    ];
    let plan = plan_of(plan_split("a.jsonl", &records, &ids(2), "ts"));
    assert_eq!(
        plan.files[0].records[1].kind,
        RecordKind::SessionMeta { id: "id0".to_string(), cwd: "/Srv/App".to_string() }
    );
    assert_eq!(plan.files[0].records[1].timestamp, records[1].timestamp);
    assert_eq!(plan.files[0].records[1].body, "m1");
    assert_eq!(
        plan.files[1].records[1].kind,
        RecordKind::SessionMeta { id: "id1".to_string(), cwd: "/x".to_string() }
    );
    assert_eq!(plan.files[0].records[0], records[0]);
    assert_eq!(plan.files[1].records[0], records[2]);
}

#[test]
fn timestamp_comes_from_the_name_then_the_first_line_then_the_clock() {
    let with_ts = vec![meta("i", "/a", "m")];
    let without_ts = vec![other("x"), meta("i", "/a", "m")];
    assert_eq!(timestamp_segment("rollout-T1-id.jsonl", &with_ts, "now"), "T1");
    assert_eq!(timestamp_segment("session.jsonl", &with_ts, "now"), "2024-05-01T10:00:00Z");
    assert_eq!(timestamp_segment("session.jsonl", &without_ts, "now"), "now");
    assert_eq!(timestamp_segment("session.jsonl", &Vec::new(), "now"), "now");
}

#[test]
fn split_uses_the_timestamp_of_the_first_line() {
    let plan = plan_of(plan_split("session.jsonl", &mixed(), &ids(2), "now"));
    assert_eq!(plan.files[0].file_name, "rollout-2024-05-01T10:00:00Z-id0.jsonl");
}

#[test]
fn split_without_a_timestamp_takes_the_time_of_the_call() {
    let records = vec![turn("/a", "t0"), turn("/b", "t1")];
    let plan = plan_of(split_if_mixed("session.jsonl", &records, &ids(2)).unwrap());
    let name = &plan.files[0].file_name;
    let stamp = &name["rollout-".len()..name.len() - "-id0.jsonl".len()];
    assert_eq!(stamp.len(), 19);
    let shape: String = stamp.chars().map(|c| if c.is_ascii_digit() { '9' } else { c }).collect();
    assert_eq!(shape, "9999-99-99T99-99-99");
    assert_eq!(plan.files[1].file_name, format!("rollout-{stamp}-id1.jsonl"));
}

#[test]
fn split_with_a_timestamp_does_not_need_the_clock() {
    let a = plan_split("rollout-T-x.jsonl", &mixed(), &ids(2), "unused");
    let b = split_if_mixed("rollout-T-x.jsonl", &mixed(), &ids(2));
    assert_eq!(Some(a), b);
}

#[test]
fn logs_made_by_a_split_are_not_split_again() {
    let plan = plan_of(plan_split("a.jsonl", &mixed(), &ids(2), "ts"));
    for file in &plan.files {
        assert_eq!(group_by_cwd(&file.records).len(), 1);
        assert_eq!(
            plan_split(&file.file_name, &file.records, &ids(0), "later"),
            SplitOutcome::Unchanged
        );
    }
}

#[test]
fn unknown_lines_and_a_directory_named_like_the_unknown_key_share_a_group() {
    let records = vec![other("x0"), turn("_UNKNOWN/", "t1"), turn("/a", "t2")];
    let groups = group_by_cwd(&records);
    assert_eq!(groups.len(), 2);
    assert_eq!(groups[0].key, "_unknown");
    assert_eq!(groups[0].cwd, Some("_UNKNOWN/".to_string()));
    assert_eq!(groups[0].members, vec![0, 1]);
}

#[test]
fn three_working_directories_give_three_logs_in_order_of_first_line() {
    let records = vec![turn("/c", "0"), turn("/a", "1"), turn("/c", "2"), turn("/b", "3"), other("4")];
    let plan = plan_of(plan_split("a.jsonl", &records, &ids(3), "ts"));
    let sizes: Vec<usize> = plan.files.iter().map(|f| f.records.len()).collect();
    assert_eq!(sizes, vec![2, 1, 2]);
    assert_eq!(sizes.iter().sum::<usize>(), records.len());
    assert_eq!(plan.files[2].records[1].body, "4");
}

#[test]
fn log_without_timestamps_that_is_not_split_needs_no_clock() {
    let records = vec![other("x"), turn("/a", "t"), other("y")];
    assert_eq!(split_if_mixed("session.jsonl", &records, &ids(0)), Some(SplitOutcome::NeedIds { count: 2 }));
    let one = vec![turn("/a", "t"), other("y")];
    assert_eq!(split_if_mixed("session.jsonl", &one, &ids(0)), Some(SplitOutcome::Unchanged));
}
