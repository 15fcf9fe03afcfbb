//! A session log whose lines belong to several working directories is split
//! into one log for each, and kept under another name.

use vstd::prelude::*;
use crate::group::{
    cwd_upto, group_by_cwd, group_views, groups_of, keys_upto, lemma_cwd_upto,
    lemma_groups_hold_every_line, lemma_members_upto, lemma_one_key_one_group, members_upto,
    total_members, CwdGroup, GroupView,
};
use crate::names::{
    backup_file_name, backup_name, is_log_name, lemma_backup_is_not_log, lemma_log_name_is_log,
    lemma_log_names_differ, log_name, name_timestamp, rollout_file_name,
    timestamp_segment_from_filename,
};
use crate::record::{
    declared_key, first_timestamp, first_timestamp_of, key_at, record_views, KindView,
    RecordKind, RecordView, SessionRecord,
};
use crate::text::{string_views, text_view};

verus! {

/// One log that a split makes.
#[derive(Clone, Debug, PartialEq, Eq)]
pub struct SplitFile {
    /// The name of the new log, in the directory of the log that is split.
    pub file_name: String,
    /// Its lines, in order.
    pub records: Vec<SessionRecord>,
}

/// What a split writes and renames.
#[derive(Clone, Debug, PartialEq, Eq)]
pub struct SplitPlan {
    /// The logs to write, one for each group.
    pub files: Vec<SplitFile>,
    /// The name that the log that is split takes once they are written.
    pub backup_name: String,
}

/// What is to be done with a log.
#[derive(Clone, Debug, PartialEq, Eq)]
pub enum SplitOutcome {
    /// Its lines fall into one group at most: nothing is to be done.
    Unchanged,
    /// Its lines fall into `count` groups, and the split needs exactly one
    /// fresh identifier for each.
    NeedIds { count: usize },
    /// The split.
    Split(SplitPlan),
}

/// The mathematical value of a `SplitFile`.
pub struct FileView {
    pub file_name: Seq<char>,
    pub records: Seq<RecordView>,
}

/// The mathematical value of a `SplitPlan`.
pub struct PlanView {
    pub files: Seq<FileView>,
    pub backup_name: Seq<char>,
}

/// The mathematical value of a `SplitOutcome`.
pub enum OutcomeView {
    Unchanged,
    NeedIds { count: nat },
    Split(PlanView),
}

impl View for SplitFile {
    type V = FileView;

    open spec fn view(&self) -> FileView {
        FileView { file_name: self.file_name@, records: record_views(self.records@) }
    }
}

impl View for SplitPlan {
    type V = PlanView;

    open spec fn view(&self) -> PlanView {
        PlanView {
            files: self.files@.map_values(|f: SplitFile| f@),
            backup_name: self.backup_name@,
        }
    }
}

impl View for SplitOutcome {
    type V = OutcomeView;

    open spec fn view(&self) -> OutcomeView {
        match self {
            SplitOutcome::Unchanged => OutcomeView::Unchanged,
            SplitOutcome::NeedIds { count } => OutcomeView::NeedIds { count: *count as nat },
            SplitOutcome::Split(plan) => OutcomeView::Split(plan@),
        }
    }
}

/// The format of a timestamp taken from the clock: fixed in width, and
/// sorting by time.
pub open spec fn clock_format() -> Seq<char> {
    seq!['%', 'Y', '-', '%', 'm', '-', '%', 'd', 'T', '%', 'H', '-', '%', 'M', '-', '%', 'S']
}

/// A line as it stands in the log of its group: the head of a session takes
/// the identifier of the new log and the working directory of the group, and
/// every other line stays as it is.
pub open spec fn refiled(record: RecordView, id: Seq<char>, cwd: Option<Seq<char>>) -> RecordView {
    match record.kind {
        KindView::SessionMeta { id: _, cwd: own } => RecordView {
            kind: KindView::SessionMeta {
                id,
                cwd: match cwd {
                    Some(cwd) => cwd,
                    None => own,
                },
            },
            timestamp: record.timestamp,
            body: record.body,
        },
        _ => record,
    }
}

/// The log of one group.
pub open spec fn file_of(
    records: Seq<RecordView>,
    group: GroupView,
    timestamp: Seq<char>,
    id: Seq<char>,
) -> FileView {
    FileView {
        file_name: log_name(timestamp, id),
        records: group.members.map_values(|m: int| refiled(records[m], id, group.cwd)),
    }
}

/// The timestamp of the logs that a split makes: that in the name of the log
/// that is split; failing that, that of its first line; failing that, `now`.
pub open spec fn chosen_timestamp(
    file_name: Seq<char>,
    records: Seq<RecordView>,
    now: Seq<char>,
) -> Seq<char> {
    match name_timestamp(file_name) {
        Some(t) => t,
        None => match first_timestamp_of(records) {
            Some(t) => t,
            None => now,
        },
    }
}

/// The split of a log into one log for each of its groups, which takes the
/// identifier at the group's position.
pub open spec fn plan_of(
    file_name: Seq<char>,
    records: Seq<RecordView>,
    ids: Seq<Seq<char>>,
    timestamp: Seq<char>,
) -> PlanView {
    PlanView {
        files: Seq::new(
            groups_of(records).len(),
            |g: int| file_of(records, groups_of(records)[g], timestamp, ids[g]),
        ),
        backup_name: backup_name(file_name),
    }
}

/// What is to be done with a log.
pub open spec fn split_outcome(
    file_name: Seq<char>,
    records: Seq<RecordView>,
    ids: Seq<Seq<char>>,
    now: Seq<char>,
) -> OutcomeView {
    if groups_of(records).len() <= 1 {
        OutcomeView::Unchanged
    } else if ids.len() != groups_of(records).len() {
        OutcomeView::NeedIds { count: groups_of(records).len() }
    } else {
        OutcomeView::Split(
            plan_of(file_name, records, ids, chosen_timestamp(file_name, records, now)),
        )
    }
}

/// The character is a decimal digit.
pub open spec fn is_digit(c: char) -> bool {
    '0' <= c && c <= '9'
}

/// The characters of `s` from position `from` up to, not including, `to`
/// are decimal digits.
pub open spec fn digits_between(s: Seq<char>, from: int, to: int) -> bool {
    forall|i: int| from <= i < to ==> is_digit(#[trigger] s[i])
}

/// `s` is a time from 1970 on as the clock format writes it: year, month,
/// day, `T`, hour, minute and second with a hyphen between each two, the
/// year in four digits, or from the year 10000 on as a plus sign and five
/// digits or more, and every other part in two digits.
pub open spec fn is_clock_text(s: Seq<char>) -> bool {
    let y = s.len() - 15;
    &&& ((y == 4 && digits_between(s, 0, 4)) || (y >= 6 && s[0] == '+' && digits_between(s, 1, y)))
    &&& s[y] == '-' && digits_between(s, y + 1, y + 3)
    &&& s[y + 3] == '-' && digits_between(s, y + 4, y + 6)
    &&& s[y + 6] == 'T' && digits_between(s, y + 7, y + 9)
    &&& s[y + 9] == '-' && digits_between(s, y + 10, y + 12)
    &&& s[y + 12] == '-' && digits_between(s, y + 13, y + 15)
}

/// Calls `SystemTime::elapsed` of std on the Unix epoch: the seconds and
/// the nanoseconds that the system clock shows to have passed since the
/// start of 1970, and `None` where the clock shows an earlier time. Nothing
/// is claimed of the result, which changes with the time.
#[verifier::external_body]
fn time_since_epoch() -> (since: Option<(u64, u32)>) {
    match std::time::UNIX_EPOCH.elapsed() {
        Ok(since) => Some((since.as_secs(), since.subsec_nanos())),
        Err(_) => None,
    }
}

/// Calls `chrono::DateTime::from_timestamp` and `chrono::DateTime::format`,
/// and renders the result as a string: the time in UTC that lies `seconds`
/// and `nanos` after the start of 1970, and `None` where chrono cannot hold
/// that time. `format` has to be the one format that the library uses, whose
/// escapes chrono knows: rendering an unknown escape panics. The contract
/// claims of the string the shape that chrono gives every time from 1970 on
/// in this format.
#[verifier::external_body]
fn utc_formatted(seconds: i64, nanos: u32, format: &str) -> (text: Option<String>)
    requires
        seconds >= 0,
        format@ == clock_format(),
    ensures
        text matches Some(t) ==> is_clock_text(t@),
{
    match chrono::DateTime::from_timestamp(seconds, nanos) {
        Some(at) => Some(at.format(format).to_string()),
        None => None,
    }
}

/// A line as it stands in the log of its group.
fn refile(record: &SessionRecord, id: &String, cwd: &Option<String>) -> (out: SessionRecord)
    ensures
        out@ == refiled(record@, id@, text_view(*cwd)),
{
    match &record.kind {
        RecordKind::SessionMeta { id: _, cwd: own } => {
            let new_cwd = match cwd {
                Some(cwd) => cwd.clone(),
                None => own.clone(),
            };
            let timestamp = match &record.timestamp {
                Some(t) => Some(t.clone()),
                None => None,
            };
            SessionRecord {
                kind: RecordKind::SessionMeta { id: id.clone(), cwd: new_cwd },
                timestamp,
                body: record.body.clone(),
            }
        },
        _ => record.duplicate(),
    }
}

/// The log of one group.
fn file_for(records: &Vec<SessionRecord>, group: &CwdGroup, timestamp: &str, id: &String) -> (file:
    SplitFile)
    requires
        forall|j: int| 0 <= j < group.members.len() ==> group.members[j] < records.len(),
    ensures
        file@ == file_of(record_views(records@), group@, timestamp@, id@),
{
    let ghost rs = record_views(records@);
    let ghost members = group@.members;
    let mut out: Vec<SessionRecord> = Vec::new();
    let mut j: usize = 0;
    while j < group.members.len()
        invariant
            j <= group.members.len(),
            rs == record_views(records@),
            members == group@.members,
            forall|j: int| 0 <= j < group.members.len() ==> group.members[j] < records.len(),
            record_views(out@) == members.take(j as int).map_values(
                |m: int| refiled(rs[m], id@, group@.cwd),
            ),
        decreases group.members.len() - j,
    {
        let m = group.members[j];
        let ghost before = out@;
        out.push(refile(&records[m], id, &group.cwd));
        assert(members[j as int] == m as int);
        assert(record_views(out@) =~= record_views(before).push(
            refiled(rs[m as int], id@, group@.cwd),
        ));
        assert(members.take(j + 1) == members.take(j as int).push(m as int));
        j += 1;
    }
    assert(members.take(group.members.len() as int) == members);
    SplitFile { file_name: rollout_file_name(timestamp, id.as_str()), records: out }
}

/// The timestamp of the logs that a split makes: that in the name of the log
/// that is split; failing that, that of its first line; failing that, `now`.
pub fn timestamp_segment(file_name: &str, records: &Vec<SessionRecord>, now: &str) -> (timestamp:
    String)
    ensures
        timestamp@ == chosen_timestamp(file_name@, record_views(records@), now@),
{
    match timestamp_segment_from_filename(file_name) {
        Some(t) => t,
        None => match first_timestamp(records) {
            Some(t) => t,
            None => now.to_owned(),
        },
    }
}

/// The split of a log whose groups are `groups`.
fn build_plan(
    file_name: &str,
    records: &Vec<SessionRecord>,
    groups: &Vec<CwdGroup>,
    ids: &Vec<String>,
    timestamp: &str,
) -> (plan: SplitPlan)
    requires
        group_views(groups@) == groups_of(record_views(records@)),
        ids.len() == groups.len(),
    ensures
        plan@ == plan_of(file_name@, record_views(records@), string_views(ids@), timestamp@),
{
    let ghost rs = record_views(records@);
    let mut files: Vec<SplitFile> = Vec::new();
    let mut g: usize = 0;
    while g < groups.len()
        invariant
            g <= groups.len(),
            ids.len() == groups.len(),
            rs == record_views(records@),
            group_views(groups@) == groups_of(rs),
            files.len() == g,
            forall|h: int|
                0 <= h < g ==> (#[trigger] files[h])@ == file_of(
                    rs,
                    groups_of(rs)[h],
                    timestamp@,
                    ids[h]@,
                ),
        decreases groups.len() - g,
    {
        let group = &groups[g];
        assert(group@ == group_views(groups@)[g as int]);
        assert forall|j: int| 0 <= j < group.members.len() implies group.members[j]
            < records.len() by {
            let key = keys_upto(rs, rs.len() as int)[g as int];
            let members = members_upto(rs, key, rs.len() as int);
            lemma_members_upto(rs, key, rs.len() as int);
            assert(group_views(groups@).len() == groups.len());
            assert(groups_of(rs)[g as int].members == members);
            assert(group@.members == members);
            assert(members[j] == group.members[j] as int);
            assert(members.contains(members[j]));
        }
        files.push(file_for(records, group, timestamp, &ids[g]));
        g += 1;
    }
    let plan = SplitPlan { files, backup_name: backup_file_name(file_name) };
    assert(plan@.files =~= plan_of(file_name@, rs, string_views(ids@), timestamp@).files);
    plan
}

/// What is to be done with the log named `file_name` whose lines are
/// `records`, where `ids` holds a fresh identifier for each log that a split
/// would make, and `now` is the timestamp to use where neither the name of
/// the log nor its first line gives one.
pub fn plan_split(
    file_name: &str,
    records: &Vec<SessionRecord>,
    ids: &Vec<String>,
    now: &str,
) -> (outcome: SplitOutcome)
    ensures
        outcome@ == split_outcome(file_name@, record_views(records@), string_views(ids@), now@),
{
    let groups = group_by_cwd(records);
    assert(group_views(groups@).len() == groups.len());
    if groups.len() <= 1 {
        SplitOutcome::Unchanged
    } else if ids.len() != groups.len() {
        SplitOutcome::NeedIds { count: groups.len() }
    } else {
        let timestamp = timestamp_segment(file_name, records, now);
        SplitOutcome::Split(build_plan(file_name, records, &groups, ids, timestamp.as_str()))
    }
}

/// The time of the call, in the format of the clock; `None` where the
/// system clock shows a time before 1970 or one that is too late to write.
fn current_timestamp() -> (now: Option<String>)
    ensures
        now matches Some(t) ==> is_clock_text(t@),
{
    proof {
        reveal_strlit("%Y-%m-%dT%H-%M-%S");
    }
    let format = "%Y-%m-%dT%H-%M-%S";
    assert(format@ =~= clock_format());
    match time_since_epoch() {
        Some((seconds, nanos)) => if seconds <= i64::MAX as u64 {
            utc_formatted(seconds as i64, nanos, format)
        } else {
            None
        },
        None => None,
    }
}

/// What is to be done with the log named `file_name` whose lines are
/// `records`, where `ids` holds a fresh identifier for each log that a split
/// would make. The clock is read only where a split is to be made and
/// neither the name of the log nor its first line gives a timestamp: the
/// split then takes the time of the call, and the result is `None` where
/// the clock gives no time. In every other case the result is owed, and the
/// clock has no part in it.
pub fn split_if_mixed(file_name: &str, records: &Vec<SessionRecord>, ids: &Vec<String>) -> (outcome:
    Option<SplitOutcome>)
    ensures
        match outcome {
            Some(o) => exists|now: Seq<char>|
                o@ == #[trigger] split_outcome(
                    file_name@,
                    record_views(records@),
                    string_views(ids@),
                    now,
                ) && (o@ is Split && name_timestamp(file_name@) is None && first_timestamp_of(
                    record_views(records@),
                ) is None ==> is_clock_text(now)),
            None => name_timestamp(file_name@) is None && first_timestamp_of(
                record_views(records@),
            ) is None && split_outcome(
                file_name@,
                record_views(records@),
                string_views(ids@),
                Seq::empty(),
            ) is Split,
        },
        name_timestamp(file_name@) is Some || first_timestamp_of(record_views(records@)) is Some
            || split_outcome(
            file_name@,
            record_views(records@),
            string_views(ids@),
            Seq::empty(),
        ) !is Split ==> outcome is Some && forall|now: Seq<char>|
            outcome->0@ == #[trigger] split_outcome(
                file_name@,
                record_views(records@),
                string_views(ids@),
                now,
            ),
{
    let unstamped = plan_split(file_name, records, ids, "");
    proof {
        reveal_strlit("");
    }
    assert(""@ =~= Seq::<char>::empty());
    let stamped = timestamp_segment_from_filename(file_name).is_some() || first_timestamp(
        records,
    ).is_some();
    let split = match &unstamped {
        SplitOutcome::Split(_) => true,
        _ => false,
    };
    if stamped || !split {
        return Some(unstamped);
    }
    match current_timestamp() {
        Some(now) => {
            let outcome = plan_split(file_name, records, ids, now.as_str());
            assert(outcome@ == split_outcome(
                file_name@,
                record_views(records@),
                string_views(ids@),
                now@,
            ));
            Some(outcome)
        },
        None => None,
    }
}

/// The number of lines in all the logs together.
pub open spec fn total_records(files: Seq<FileView>) -> nat
    decreases files.len(),
{
    if files.len() == 0 {
        0
    } else {
        total_records(files.drop_last()) + files.last().records.len()
    }
}

proof fn lemma_totals_agree(files: Seq<FileView>, groups: Seq<GroupView>)
    requires
        files.len() == groups.len(),
        forall|g: int|
            0 <= g < files.len() ==> (#[trigger] files[g]).records.len()
                == groups[g].members.len(),
    ensures
        total_records(files) == total_members(groups),
    decreases files.len(),
{
    if files.len() > 0 {
        lemma_totals_agree(files.drop_last(), groups.drop_last());
    }
}

/// A log whose lines are all filed under one key, and a log without lines,
/// is left as it is.
pub proof fn lemma_one_key_is_unchanged(
    file_name: Seq<char>,
    records: Seq<RecordView>,
    ids: Seq<Seq<char>>,
    now: Seq<char>,
)
    requires
        forall|i: int, j: int|
            0 <= i < records.len() && 0 <= j < records.len() ==> key_at(records, i) == key_at(
                records,
                j,
            ),
    ensures
        split_outcome(file_name, records, ids, now) == OutcomeView::Unchanged,
{
    lemma_one_key_one_group(records);
}

/// A split makes one log for each group. The log of a group holds the lines
/// of the group, in their order, each as `refiled` leaves it. The logs hold
/// as many lines together as the log that is split. That log is kept under
/// its name with the backup suffix, which is not the name of a session log,
/// while the new logs have such names, different where their identifiers
/// differ.
pub proof fn lemma_split_keeps_every_line(
    file_name: Seq<char>,
    records: Seq<RecordView>,
    ids: Seq<Seq<char>>,
    timestamp: Seq<char>,
)
    requires
        ids.len() == groups_of(records).len(),
    ensures
        plan_of(file_name, records, ids, timestamp).files.len() == groups_of(records).len(),
        forall|g: int, j: int|
            0 <= g < groups_of(records).len() && 0 <= j < groups_of(records)[g].members.len()
                ==> (#[trigger] plan_of(file_name, records, ids, timestamp).files[g].records[j])
                == refiled(
                records[groups_of(records)[g].members[j]],
                ids[g],
                groups_of(records)[g].cwd,
            ),
        forall|g: int|
            0 <= g < groups_of(records).len() ==> (#[trigger] plan_of(
                file_name,
                records,
                ids,
                timestamp,
            ).files[g]).records.len() == groups_of(records)[g].members.len(),
        total_records(plan_of(file_name, records, ids, timestamp).files) == records.len(),
        forall|g: int|
            0 <= g < groups_of(records).len() ==> is_log_name(
                (#[trigger] plan_of(file_name, records, ids, timestamp).files[g]).file_name,
            ),
        forall|g: int, h: int|
            0 <= g < groups_of(records).len() && 0 <= h < groups_of(records).len() && ids[g]
                != ids[h] ==> (#[trigger] plan_of(file_name, records, ids, timestamp).files[g]).file_name
                != (#[trigger] plan_of(file_name, records, ids, timestamp).files[h]).file_name,
        plan_of(file_name, records, ids, timestamp).backup_name == backup_name(file_name),
        !is_log_name(plan_of(file_name, records, ids, timestamp).backup_name),
{
    let plan = plan_of(file_name, records, ids, timestamp);
    let groups = groups_of(records);
    lemma_groups_hold_every_line(records);
    lemma_totals_agree(plan.files, groups);
    lemma_backup_is_not_log(file_name);
    assert forall|g: int| 0 <= g < groups.len() implies is_log_name(
        (#[trigger] plan.files[g]).file_name,
    ) by {
        lemma_log_name_is_log(timestamp, ids[g]);
    }
    assert forall|g: int, h: int|
        0 <= g < groups.len() && 0 <= h < groups.len() && ids[g] != ids[h] implies (
    #[trigger] plan.files[g]).file_name != (#[trigger] plan.files[h]).file_name by {
        lemma_log_names_differ(timestamp, ids[g], ids[h]);
    }
}

/// Every line of the log that a split makes of a group is filed under the
/// key of the group: the log belongs to one working directory.
pub proof fn lemma_refiled_lines_share_key(
    records: Seq<RecordView>,
    g: int,
    id: Seq<char>,
    timestamp: Seq<char>,
    j: int,
)
    requires
        0 <= g < groups_of(records).len(),
        0 <= j < groups_of(records)[g].members.len(),
    ensures
        key_at(file_of(records, groups_of(records)[g], timestamp, id).records, j) == groups_of(
            records,
        )[g].key,
    decreases j,
{
    let n = records.len() as int;
    let group = groups_of(records)[g];
    let key = keys_upto(records, n)[g];
    let members = members_upto(records, key, n);
    let lines = file_of(records, group, timestamp, id).records;
    assert(group.key == key && group.members == members && group.cwd == cwd_upto(records, key, n));
    lemma_members_upto(records, key, n);
    lemma_cwd_upto(records, key, n);
    let m = members[j];
    assert(members.contains(m));
    assert(lines[j] == refiled(records[m], id, group.cwd));
    assert(0 <= m < n && key_at(records, m) == key);
    if declared_key(records[m].kind) is Some {
        assert(declared_key(records[m].kind) == Some(key));
        assert(cwd_upto(records, key, n) is Some);
        assert(declared_key(lines[j].kind) == Some(key));
    } else {
        assert(lines[j] == records[m]);
        assert(key_at(records, m) == key_at(records, m - 1));
        if j == 0 {
            assert(m == 0) by {
                if m > 0 {
                    assert(key_at(records, m - 1) == key);
                    assert(members.contains(m - 1));
                    let a = choose|a: int| 0 <= a < members.len() && members[a] == m - 1;
                    if a > 0 {
                        assert(members[0] < members[a]);
                    }
                }
            }
            assert(key_at(lines, 0) == key_at(lines, -1));
        } else {
            lemma_refiled_lines_share_key(records, g, id, timestamp, j - 1);
            assert(key_at(lines, j) == key_at(lines, j - 1));
        }
    }
}

/// A log that a split has made is not split again: its lines are all filed
/// under one key, so it is left as it is, whatever its name.
pub proof fn lemma_split_log_stays_whole(
    file_name: Seq<char>,
    records: Seq<RecordView>,
    ids: Seq<Seq<char>>,
    timestamp: Seq<char>,
    g: int,
    later_ids: Seq<Seq<char>>,
    later_now: Seq<char>,
)
    requires
        ids.len() == groups_of(records).len(),
        0 <= g < groups_of(records).len(),
    ensures
        split_outcome(
            plan_of(file_name, records, ids, timestamp).files[g].file_name,
            plan_of(file_name, records, ids, timestamp).files[g].records,
            later_ids,
            later_now,
        ) == OutcomeView::Unchanged,
{
    let file = plan_of(file_name, records, ids, timestamp).files[g];
    let group = groups_of(records)[g];
    assert(file == file_of(records, group, timestamp, ids[g]));
    assert forall|i: int, j: int|
        0 <= i < file.records.len() && 0 <= j < file.records.len() implies key_at(file.records, i)
        == key_at(file.records, j) by {
        lemma_refiled_lines_share_key(records, g, ids[g], timestamp, i);
        lemma_refiled_lines_share_key(records, g, ids[g], timestamp, j);
    }
    lemma_one_key_is_unchanged(file.file_name, file.records, later_ids, later_now);
}

} // verus!
