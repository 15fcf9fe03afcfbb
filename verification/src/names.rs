//! The names of session-log files: how one is recognised, what its name
//! tells, and the names given to the files that a rewrite makes.

use vstd::prelude::*;
use vstd::string::StringExecFns;
use crate::cwd::ascii_lower;
use crate::text::{
    begins_with, chars_of, copy_range, find_last, last_index_of, lemma_last_index_is,
    lemma_last_index_of, starts_with, string_of, text_view,
};

verus! {

/// The extension of a session log, in small letters.
pub open spec fn log_extension() -> Seq<char> {
    seq!['j', 's', 'o', 'n', 'l']
}

/// What the name of a session log begins with.
pub open spec fn log_prefix() -> Seq<char> {
    seq!['r', 'o', 'l', 'l', 'o', 'u', 't', '-']
}

/// What is appended to the name of a log that was split, to keep it.
pub open spec fn backup_suffix() -> Seq<char> {
    seq!['.', 'm', 'i', 'x', 'e', 'd', '.', 'b', 'a', 'k']
}

/// The position of the dot that parts a file name from its extension, or -1:
/// the last dot, unless the name has none, begins with its only dot, or is
/// `..`.
pub open spec fn extension_dot(name: Seq<char>) -> int {
    let dot = last_index_of(name, '.');
    if dot <= 0 || name == seq!['.', '.'] {
        -1
    } else {
        dot
    }
}

/// The file name without its extension.
pub open spec fn stem_of(name: Seq<char>) -> Seq<char> {
    if extension_dot(name) < 0 {
        name
    } else {
        name.take(extension_dot(name))
    }
}

/// The extension of the file name, without the dot.
pub open spec fn extension_of(name: Seq<char>) -> Option<Seq<char>> {
    if extension_dot(name) < 0 {
        None
    } else {
        Some(name.skip(extension_dot(name) + 1))
    }
}

/// The file name is that of a session log: its extension is `jsonl`, in
/// letters of either case.
pub open spec fn is_log_name(name: Seq<char>) -> bool {
    match extension_of(name) {
        Some(ext) => ext.map_values(|c: char| ascii_lower(c)) == log_extension(),
        None => false,
    }
}

/// The timestamp in a file name of the form `rollout-<timestamp>-<id>.<ext>`:
/// what stands between the prefix and the last hyphen of the stem.
pub open spec fn name_timestamp(name: Seq<char>) -> Option<Seq<char>> {
    let stem = stem_of(name);
    if starts_with(stem, log_prefix()) {
        let rest = stem.skip(8);
        let hyphen = last_index_of(rest, '-');
        if hyphen >= 0 {
            Some(rest.take(hyphen))
        } else {
            None
        }
    } else {
        None
    }
}

/// The name of the log that holds one part of a split log.
pub open spec fn log_name(timestamp: Seq<char>, id: Seq<char>) -> Seq<char> {
    log_prefix() + timestamp + seq!['-'] + id + seq!['.'] + log_extension()
}

/// The name under which a log that was split is kept.
pub open spec fn backup_name(name: Seq<char>) -> Seq<char> {
    name + backup_suffix()
}

/// The name that a log takes where its own name is taken already.
pub open spec fn renamed_with_id(name: Seq<char>, id: Seq<char>) -> Seq<char> {
    stem_of(name) + seq!['-'] + id + seq!['.'] + log_extension()
}

fn extension_dot_in(chars: &Vec<char>) -> (dot: Option<usize>)
    ensures
        match dot {
            Some(d) => 0 < d < chars.len() && d as int == extension_dot(chars@),
            None => extension_dot(chars@) == -1,
        },
{
    proof {
        lemma_last_index_of(chars@, '.');
    }
    if chars.len() == 2 && chars[0] == '.' && chars[1] == '.' {
        assert(chars@ =~= seq!['.', '.']);
        return None;
    }
    match find_last(chars, '.') {
        Some(d) => if d == 0 {
            None
        } else {
            Some(d)
        },
        None => None,
    }
}

/// The file name without its extension.
pub fn file_stem(name: &str) -> (stem: String)
    ensures
        stem@ == stem_of(name@),
{
    let chars = chars_of(name);
    match extension_dot_in(&chars) {
        Some(d) => {
            let kept = copy_range(&chars, 0, d);
            string_of(&kept)
        },
        None => string_of(&chars),
    }
}

/// Whether the file name is that of a session log.
pub fn has_log_extension(name: &str) -> (yes: bool)
    ensures
        yes == is_log_name(name@),
{
    let chars = chars_of(name);
    match extension_dot_in(&chars) {
        Some(d) => {
            let ghost ext = chars@.skip(d + 1);
            let ghost low = ext.map_values(|c: char| ascii_lower(c));
            if chars.len() - d != 6 {
                assert(low.len() != log_extension().len());
                return false;
            }
            let e0 = chars[d + 1];
            let e1 = chars[d + 2];
            let e2 = chars[d + 3];
            let e3 = chars[d + 4];
            let e4 = chars[d + 5];
            let yes = (e0 == 'j' || e0 == 'J') && (e1 == 's' || e1 == 'S') && (e2 == 'o' || e2
                == 'O') && (e3 == 'n' || e3 == 'N') && (e4 == 'l' || e4 == 'L');
            proof {
                assert(ext[0] == e0 && ext[1] == e1 && ext[2] == e2 && ext[3] == e3 && ext[4]
                    == e4);
                assert(low[0] == ascii_lower(e0) && low[1] == ascii_lower(e1) && low[2]
                    == ascii_lower(e2) && low[3] == ascii_lower(e3) && low[4] == ascii_lower(e4));
                if yes {
                    assert(low =~= log_extension());
                }
            }
            yes
        },
        None => false,
    }
}

/// The timestamp that the file name carries, where it has the form
/// `rollout-<timestamp>-<id>.<ext>`.
pub fn timestamp_segment_from_filename(name: &str) -> (timestamp: Option<String>)
    ensures
        text_view(timestamp) == name_timestamp(name@),
{
    let chars = chars_of(name);
    let stem = match extension_dot_in(&chars) {
        Some(d) => copy_range(&chars, 0, d),
        None => chars,
    };
    proof {
        reveal_strlit("rollout-");
    }
    let prefix = chars_of("rollout-");
    assert(prefix@ =~= log_prefix());
    if !begins_with(&stem, &prefix) {
        return None;
    }
    let rest = copy_range(&stem, 8, stem.len());
    assert(rest@ == stem@.skip(8));
    match find_last(&rest, '-') {
        Some(h) => {
            let kept = copy_range(&rest, 0, h);
            Some(string_of(&kept))
        },
        None => None,
    }
}

/// The name of the log that holds one part of a split log.
pub fn rollout_file_name(timestamp: &str, id: &str) -> (name: String)
    ensures
        name@ == log_name(timestamp@, id@),
{
    proof {
        reveal_strlit("rollout-");
        reveal_strlit("-");
        reveal_strlit(".jsonl");
    }
    let mut name = "rollout-".to_owned();
    name.append(timestamp);
    name.append("-");
    name.append(id);
    name.append(".jsonl");
    assert(name@ =~= log_name(timestamp@, id@));
    name
}

/// The name under which a log that was split is kept.
pub fn backup_file_name(name: &str) -> (backup: String)
    ensures
        backup@ == backup_name(name@),
{
    proof {
        reveal_strlit(".mixed.bak");
    }
    let mut backup = name.to_owned();
    backup.append(".mixed.bak");
    assert(backup@ =~= backup_name(name@));
    backup
}

/// The name that a log takes where its own name is taken already.
pub fn disambiguated_file_name(name: &str, id: &str) -> (renamed: String)
    ensures
        renamed@ == renamed_with_id(name@, id@),
{
    proof {
        reveal_strlit("-");
        reveal_strlit(".jsonl");
    }
    let mut renamed = file_stem(name);
    renamed.append("-");
    renamed.append(id);
    renamed.append(".jsonl");
    assert(renamed@ =~= renamed_with_id(name@, id@));
    renamed
}

proof fn lemma_ends_with_log_extension(head: Seq<char>)
    requires
        head.len() > 0,
    ensures
        extension_dot(head + seq!['.'] + log_extension()) == head.len(),
        stem_of(head + seq!['.'] + log_extension()) == head,
        is_log_name(head + seq!['.'] + log_extension()),
{
    let name = head + seq!['.'] + log_extension();
    let n = head.len() as int;
    assert(name[n] == '.');
    assert(name[n + 1] == 'j' && name[n + 2] == 's' && name[n + 3] == 'o' && name[n + 4] == 'n'
        && name[n + 5] == 'l');
    lemma_last_index_is(name, '.', n);
    assert(name.take(n) == head);
    assert(name.skip(n + 1) == log_extension());
    assert(log_extension().map_values(|c: char| ascii_lower(c)) == log_extension());
}

/// A log made by a split is itself recognised as a session log.
pub proof fn lemma_log_name_is_log(timestamp: Seq<char>, id: Seq<char>)
    ensures
        is_log_name(log_name(timestamp, id)),
        stem_of(log_name(timestamp, id)) == log_prefix() + timestamp + seq!['-'] + id,
{
    lemma_ends_with_log_extension(log_prefix() + timestamp + seq!['-'] + id);
}

/// Logs made with one timestamp have different names exactly where their
/// identifiers differ.
pub proof fn lemma_log_names_differ(timestamp: Seq<char>, a: Seq<char>, b: Seq<char>)
    ensures
        log_name(timestamp, a) == log_name(timestamp, b) <==> a == b,
{
    if log_name(timestamp, a) == log_name(timestamp, b) {
        let head = log_prefix() + timestamp + seq!['-'];
        let na = log_name(timestamp, a);
        let nb = log_name(timestamp, b);
        assert(na.len() == nb.len());
        assert(na.subrange(head.len() as int, (head.len() + a.len()) as int) == a);
        assert(nb.subrange(head.len() as int, (head.len() + b.len()) as int) == b);
    }
}

/// The name of a log made by a split gives back the timestamp it was made
/// with, where the identifier holds no hyphen.
pub proof fn lemma_log_name_keeps_timestamp(timestamp: Seq<char>, id: Seq<char>)
    requires
        !id.contains('-'),
    ensures
        name_timestamp(log_name(timestamp, id)) == Some(timestamp),
{
    lemma_log_name_is_log(timestamp, id);
    let stem = log_prefix() + timestamp + seq!['-'] + id;
    assert(stem.take(8) == log_prefix());
    let rest = stem.skip(8);
    assert(rest == timestamp + seq!['-'] + id);
    let h = timestamp.len() as int;
    assert(rest[h] == '-');
    assert forall|i: int| h < i < rest.len() implies rest[i] != '-' by {
        assert(rest[i] == id[i - h - 1]);
    }
    lemma_last_index_is(rest, '-', h);
    assert(rest.take(h) == timestamp);
}

/// A log that was split and kept is no longer recognised as a session log.
pub proof fn lemma_backup_is_not_log(name: Seq<char>)
    ensures
        !is_log_name(backup_name(name)),
{
    let kept = backup_name(name);
    let n = name.len() as int;
    assert(kept[n + 6] == '.');
    assert(kept[n + 7] == 'b' && kept[n + 8] == 'a' && kept[n + 9] == 'k');
    lemma_last_index_is(kept, '.', n + 6);
    assert(kept.skip(n + 7).len() == 3);
}

/// The name taken on a collision is that of a session log, and differs from
/// the name it replaces.
pub proof fn lemma_renamed_with_id(name: Seq<char>, id: Seq<char>)
    ensures
        renamed_with_id(name, id) != name,
        is_log_name(renamed_with_id(name, id)),
{
    let stem = stem_of(name);
    let renamed = renamed_with_id(name, id);
    lemma_ends_with_log_extension(stem + seq!['-'] + id);
    lemma_last_index_of(name, '.');
    let n = stem.len() as int;
    assert(renamed[n] == '-');
    if extension_dot(name) >= 0 {
        assert(name[n] == '.');
    }
}

} // verus!
