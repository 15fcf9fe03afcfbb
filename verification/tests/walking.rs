use session_normalizer::walk::{DirEntry, Walker};

fn entry(path: &str, is_dir: bool) -> DirEntry {
    let file_name = path.rsplit('/').next().unwrap_or(path).to_string();
    DirEntry { path: path.to_string(), file_name, is_dir }
}

#[test]
fn walk_starts_at_the_root_and_ends() {
    let mut walker = Walker::new("root".to_string());
    assert_eq!(walker.next_dir(), Some("root".to_string()));
    assert_eq!(walker.next_dir(), None);
    assert_eq!(walker.next_dir(), None);
}

#[test]
fn visit_hands_out_the_logs_and_queues_the_directories() {
    let mut walker = Walker::new("root".to_string());
    assert_eq!(walker.next_dir(), Some("root".to_string()));
    let logs = walker.visit(&vec![
        entry("root/a.jsonl", false),
        entry("root/2024", true),
        entry("root/notes.txt", false),
        entry("root/B.JSONL", false),
        entry("root/dir.jsonl", true),
        entry("root/a.jsonl.mixed.bak", false),
    ]);
    assert_eq!(logs, vec!["root/a.jsonl", "root/B.JSONL"]);
    assert_eq!(walker.next_dir(), Some("root/dir.jsonl".to_string()));
    assert_eq!(walker.next_dir(), Some("root/2024".to_string()));
    assert_eq!(walker.next_dir(), None);
}

#[test]
fn directory_that_could_not_be_listed_adds_nothing() {
    let mut walker = Walker::new("root".to_string());
    walker.next_dir();
    assert_eq!(walker.visit(&Vec::new()), Vec::<String>::new());
    assert_eq!(walker.next_dir(), None);
}

#[test]
fn directories_found_later_are_listed_first() {
    let mut walker = Walker::new("root".to_string());
    walker.next_dir();
    walker.visit(&vec![entry("root/a", true), entry("root/b", true)]);
    assert_eq!(walker.next_dir(), Some("root/b".to_string()));
    walker.visit(&vec![entry("root/b/c", true)]);
    assert_eq!(walker.next_dir(), Some("root/b/c".to_string()));
    assert_eq!(walker.next_dir(), Some("root/a".to_string()));
    assert_eq!(walker.next_dir(), None);
}
