use session_normalizer::migrate::{
    advance, begin_migration, LegacyLocation, Migration, MigrationEvent, MoveTarget,
};
use session_normalizer::record::{RecordKind, SessionRecord};

fn path(segments: &[&str]) -> Vec<String> {
    segments.iter().map(|s| s.to_string()).collect()
}

fn turn(cwd: &str) -> SessionRecord {
    SessionRecord {
        kind: RecordKind::TurnContext { cwd: cwd.to_string() },
        timestamp: None,
        body: String::new(),
    }
}

fn other() -> SessionRecord {
    SessionRecord { kind: RecordKind::Other, timestamp: None, body: String::new() }
}

fn legacy() -> LegacyLocation {
    LegacyLocation {
        year: "2024".to_string(),
        month: "05".to_string(),
        day: "01".to_string(),
        file_name: "rollout-x.jsonl".to_string(),
    }
}

fn target(name: &str) -> MoveTarget {
    MoveTarget { dir: path(&["2024", "05", "01", "slug-a"]), file_name: name.to_string() }
}

#[test]
fn legacy_log_moves_below_the_slug_of_its_working_directory() {
    let state = begin_migration(&path(&["2024", "05", "01", "rollout-x.jsonl"]));
    assert_eq!(state, Migration::ReadLog(legacy()));
    let state = advance(state, MigrationEvent::Log(vec![other(), turn("/home/a"), turn("/home/b")]));
    assert_eq!(state, Migration::FindSlug { from: legacy(), cwd: "/home/a".to_string() });
    let state = advance(state, MigrationEvent::Slug("slug-a".to_string()));
    assert_eq!(state, Migration::Prepare(target("rollout-x.jsonl")));
    let state = advance(state, MigrationEvent::TargetExists(false));
    assert_eq!(state, Migration::Move(target("rollout-x.jsonl")));
}

#[test]
fn taken_target_gives_way_to_a_name_with_a_fresh_identifier() {
    let state = Migration::Prepare(target("rollout-x.jsonl"));
    let state = advance(state, MigrationEvent::TargetExists(true));
    assert_eq!(state, Migration::FindId(target("rollout-x.jsonl")));
    let state = advance(state, MigrationEvent::FreshId("0199".to_string()));
    assert_eq!(state, Migration::Move(target("rollout-x-0199.jsonl")));
}

#[test]
fn log_below_a_slug_directory_is_left_alone() {
    let deep = path(&["2024", "05", "01", "slug-a", "rollout-x.jsonl"]);
    assert_eq!(begin_migration(&deep), Migration::Skip);
    let deeper = path(&["2024", "05", "01", "slug-a", "more", "rollout-x.jsonl"]);
    assert_eq!(begin_migration(&deeper), Migration::Skip);
    assert_eq!(
        advance(Migration::Skip, MigrationEvent::Log(vec![turn("/home/a")])),
        Migration::Skip
    );
}

#[test]
fn log_above_the_day_directory_is_left_alone() {
    assert_eq!(begin_migration(&path(&["2024", "05", "rollout-x.jsonl"])), Migration::Skip);
    assert_eq!(begin_migration(&path(&["rollout-x.jsonl"])), Migration::Skip);
    assert_eq!(begin_migration(&Vec::new()), Migration::Skip);
}

#[test]
fn log_without_a_working_directory_is_left_alone() {
    let state = advance(Migration::ReadLog(legacy()), MigrationEvent::Log(vec![other(), other()]));
    assert_eq!(state, Migration::Skip);
    let state = advance(Migration::ReadLog(legacy()), MigrationEvent::Log(Vec::new()));
    assert_eq!(state, Migration::Skip);
}

#[test]
fn event_that_answers_nothing_changes_nothing() {
    let state = advance(Migration::ReadLog(legacy()), MigrationEvent::Slug("s".to_string()));
    assert_eq!(state, Migration::ReadLog(legacy()));
    let state = advance(Migration::Move(target("a.jsonl")), MigrationEvent::TargetExists(true));
    assert_eq!(state, Migration::Move(target("a.jsonl")));
    let state = advance(Migration::FindId(target("a.jsonl")), MigrationEvent::TargetExists(true));
    assert_eq!(state, Migration::FindId(target("a.jsonl")));
}

#[test]
fn moved_log_is_not_moved_again() {
    let to = target("rollout-x.jsonl");
    let mut now = to.dir.clone();
    now.push(to.file_name);
    assert_eq!(begin_migration(&now), Migration::Skip);
}
