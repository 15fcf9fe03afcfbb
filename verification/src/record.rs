//! One decoded line of a session log, and the working directory it belongs to.

use vstd::prelude::*;
use crate::cwd::{cwd_key, normalize_cwd};
use crate::text::text_view;

verus! {

/// What a line of a session log decodes as.
#[derive(Clone, Debug, PartialEq, Eq)]
pub enum RecordKind {
    /// The head of a session: the conversation's identifier and the working
    /// directory it started in.
    SessionMeta { id: String, cwd: String },
    /// The context of one turn: the working directory the turn ran in.
    TurnContext { cwd: String },
    /// Any other line. It names no working directory.
    Other,
}

/// One decoded line of a session log.
#[derive(Clone, Debug, PartialEq, Eq)]
pub struct SessionRecord {
    pub kind: RecordKind,
    /// The line's own `timestamp` field, where it has one.
    pub timestamp: Option<String>,
    /// The rest of the line, carried along as it came.
    pub body: String,
}

/// The mathematical value of a `RecordKind`.
pub enum KindView {
    SessionMeta { id: Seq<char>, cwd: Seq<char> },
    TurnContext { cwd: Seq<char> },
    Other,
}

/// The mathematical value of a `SessionRecord`.
pub struct RecordView {
    pub kind: KindView,
    pub timestamp: Option<Seq<char>>,
    pub body: Seq<char>,
}

impl View for RecordKind {
    type V = KindView;

    open spec fn view(&self) -> KindView {
        match self {
            RecordKind::SessionMeta { id, cwd } => KindView::SessionMeta { id: id@, cwd: cwd@ },
            RecordKind::TurnContext { cwd } => KindView::TurnContext { cwd: cwd@ },
            RecordKind::Other => KindView::Other,
        }
    }
}

impl View for SessionRecord {
    type V = RecordView;

    open spec fn view(&self) -> RecordView {
        RecordView { kind: self.kind@, timestamp: text_view(self.timestamp), body: self.body@ }
    }
}

/// The values of the records of a log, in order.
pub open spec fn record_views(records: Seq<SessionRecord>) -> Seq<RecordView> {
    records.map_values(|r: SessionRecord| r@)
}

/// The key under which lines are filed that come before any line names a
/// working directory.
pub open spec fn unknown_key() -> Seq<char> {
    seq!['_', 'u', 'n', 'k', 'n', 'o', 'w', 'n']
}

/// What a line decodes as, given what each of the two decoders made of it: a
/// line that decodes as the head of a session is one, whatever else it
/// decodes as; otherwise a line that decodes as the context of a turn is one.
pub open spec fn kind_of_decodes(
    meta: Option<(Seq<char>, Seq<char>)>,
    turn_cwd: Option<Seq<char>>,
) -> KindView {
    match meta {
        Some(m) => KindView::SessionMeta { id: m.0, cwd: m.1 },
        None => match turn_cwd {
            Some(cwd) => KindView::TurnContext { cwd },
            None => KindView::Other,
        },
    }
}

/// The working directory that the line itself names, if it names one.
pub open spec fn declared_cwd(kind: KindView) -> Option<Seq<char>> {
    match kind {
        KindView::SessionMeta { id, cwd } => Some(cwd),
        KindView::TurnContext { cwd } => Some(cwd),
        KindView::Other => None,
    }
}

/// The key of the working directory that the line itself names.
pub open spec fn declared_key(kind: KindView) -> Option<Seq<char>> {
    match declared_cwd(kind) {
        Some(cwd) => Some(cwd_key(cwd)),
        None => None,
    }
}

/// The key that line `i` of a log is filed under: that of the last working
/// directory named at or before line `i`, and `unknown_key()` where none was.
pub open spec fn key_at(records: Seq<RecordView>, i: int) -> Seq<char>
    decreases i + 1,
{
    if i < 0 {
        unknown_key()
    } else {
        match declared_key(records[i].kind) {
            Some(key) => key,
            None => key_at(records, i - 1),
        }
    }
}

/// The key in force after a line, given the key in force before it.
pub open spec fn key_after(current: Option<Seq<char>>, kind: KindView) -> Option<Seq<char>> {
    match declared_key(kind) {
        Some(key) => Some(key),
        None => current,
    }
}

/// The working directory named by the first line of a log that names one.
pub open spec fn first_declared_cwd(records: Seq<RecordView>) -> Option<Seq<char>>
    decreases records.len(),
{
    if records.len() == 0 {
        None
    } else {
        match declared_cwd(records[0].kind) {
            Some(cwd) => Some(cwd),
            None => first_declared_cwd(records.drop_first()),
        }
    }
}

/// The `timestamp` field of the first line of a log.
pub open spec fn first_timestamp_of(records: Seq<RecordView>) -> Option<Seq<char>> {
    if records.len() == 0 {
        None
    } else {
        records[0].timestamp
    }
}

/// What a line of a log was decoded to; `None` stands for a line that could
/// not be decoded.
pub open spec fn line_view(line: Option<SessionRecord>) -> Option<RecordView> {
    match line {
        Some(record) => Some(record@),
        None => None,
    }
}

/// The records of a log: its lines without those that could not be decoded,
/// in order.
pub open spec fn decoded_lines(lines: Seq<Option<RecordView>>) -> Seq<RecordView>
    decreases lines.len(),
{
    if lines.len() == 0 {
        Seq::empty()
    } else {
        match lines.last() {
            Some(record) => decoded_lines(lines.drop_last()).push(record),
            None => decoded_lines(lines.drop_last()),
        }
    }
}

/// `unknown_key()` as a string.
pub fn unknown_key_string() -> (key: String)
    ensures
        key@ == unknown_key(),
{
    proof {
        reveal_strlit("_unknown");
    }
    let key = "_unknown".to_owned();
    assert(key@ =~= unknown_key());
    key
}

impl RecordKind {
    /// What a line decodes as. `meta` is the identifier and the working
    /// directory of the line decoded as the head of a session, and `turn_cwd`
    /// the working directory of the line decoded as the context of a turn,
    /// each `None` where that decoding fails.
    pub fn from_decodes(meta: Option<(String, String)>, turn_cwd: Option<String>) -> (kind: Self)
        ensures
            kind@ == kind_of_decodes(
                match meta {
                    Some(m) => Some((m.0@, m.1@)),
                    None => None,
                },
                text_view(turn_cwd),
            ),
    {
        match meta {
            Some(m) => RecordKind::SessionMeta { id: m.0, cwd: m.1 },
            None => match turn_cwd {
                Some(cwd) => RecordKind::TurnContext { cwd },
                None => RecordKind::Other,
            },
        }
    }

    /// The working directory that the line itself names, if it names one.
    pub fn declared_cwd(&self) -> (cwd: Option<&String>)
        ensures
            match cwd {
                Some(c) => declared_cwd(self@) == Some(c@),
                None => declared_cwd(self@) is None,
            },
    {
        match self {
            RecordKind::SessionMeta { id: _, cwd } => Some(cwd),
            RecordKind::TurnContext { cwd } => Some(cwd),
            RecordKind::Other => None,
        }
    }
}

impl SessionRecord {
    /// The key of the working directory that the line itself names.
    pub fn declared_key(&self) -> (key: Option<String>)
        ensures
            text_view(key) == declared_key(self@.kind),
    {
        match self.kind.declared_cwd() {
            Some(cwd) => Some(normalize_cwd(cwd.as_str())),
            None => None,
        }
    }

    /// A copy of the record.
    pub fn duplicate(&self) -> (copy: Self)
        ensures
            copy@ == self@,
    {
        let kind = match &self.kind {
            RecordKind::SessionMeta { id, cwd } => RecordKind::SessionMeta {
                id: id.clone(),
                cwd: cwd.clone(),
            },
            RecordKind::TurnContext { cwd } => RecordKind::TurnContext { cwd: cwd.clone() },
            RecordKind::Other => RecordKind::Other,
        };
        let timestamp = match &self.timestamp {
            Some(t) => Some(t.clone()),
            None => None,
        };
        SessionRecord { kind, timestamp, body: self.body.clone() }
    }
}

/// The key in force after `record`, given the key in force before it. A scan
/// of a log threads this through its lines.
pub fn attribute(current: Option<String>, record: &SessionRecord) -> (next: Option<String>)
    ensures
        text_view(next) == key_after(text_view(current), record@.kind),
{
    match record.declared_key() {
        Some(key) => Some(key),
        None => current,
    }
}

/// The key that each line of a log is filed under.
pub fn attributed_keys(records: &Vec<SessionRecord>) -> (keys: Vec<String>)
    ensures
        keys.len() == records.len(),
        forall|i: int|
            0 <= i < records.len() ==> (#[trigger] keys[i])@ == key_at(record_views(records@), i),
{
    let mut keys: Vec<String> = Vec::new();
    let mut current: Option<String> = None;
    let mut i: usize = 0;
    while i < records.len()
        invariant
            i <= records.len(),
            keys.len() == i,
            forall|j: int|
                0 <= j < i ==> (#[trigger] keys[j])@ == key_at(record_views(records@), j),
            match current {
                Some(key) => i > 0 && key@ == key_at(record_views(records@), i - 1),
                None => key_at(record_views(records@), i - 1) == unknown_key(),
            },
        decreases records.len() - i,
    {
        current = attribute(current, &records[i]);
        let key = match &current {
            Some(key) => key.clone(),
            None => unknown_key_string(),
        };
        keys.push(key);
        i += 1;
    }
    keys
}

/// The working directory named by the first line of a log that names one.
pub fn first_cwd(records: &Vec<SessionRecord>) -> (cwd: Option<String>)
    ensures
        text_view(cwd) == first_declared_cwd(record_views(records@)),
{
    let mut i: usize = 0;
    assert(record_views(records@).skip(0) == record_views(records@));
    while i < records.len()
        invariant
            i <= records.len(),
            first_declared_cwd(record_views(records@)) == first_declared_cwd(
                record_views(records@).skip(i as int),
            ),
        decreases records.len() - i,
    {
        let ghost rest = record_views(records@).skip(i as int);
        assert(rest[0] == records[i as int]@);
        assert(rest.drop_first() == record_views(records@).skip(i + 1));
        match records[i].kind.declared_cwd() {
            Some(cwd) => {
                return Some(cwd.clone());
            },
            None => {},
        }
        i += 1;
    }
    None
}

/// The `timestamp` field of the first line of a log.
pub fn first_timestamp(records: &Vec<SessionRecord>) -> (timestamp: Option<String>)
    ensures
        text_view(timestamp) == first_timestamp_of(record_views(records@)),
{
    if records.len() == 0 {
        None
    } else {
        match &records[0].timestamp {
            Some(t) => Some(t.clone()),
            None => None,
        }
    }
}

/// The records of a log whose lines were decoded one by one: a line that
/// could not be decoded is passed over, and the others keep their order.
pub fn keep_decoded(lines: &Vec<Option<SessionRecord>>) -> (records: Vec<SessionRecord>)
    ensures
        record_views(records@) == decoded_lines(
            lines@.map_values(|line: Option<SessionRecord>| line_view(line)),
        ),
{
    let ghost all = lines@.map_values(|line: Option<SessionRecord>| line_view(line));
    let mut records: Vec<SessionRecord> = Vec::new();
    let mut i: usize = 0;
    assert(record_views(records@) =~= decoded_lines(all.take(0)));
    while i < lines.len()
        invariant
            i <= lines.len(),
            all == lines@.map_values(|line: Option<SessionRecord>| line_view(line)),
            record_views(records@) == decoded_lines(all.take(i as int)),
        decreases lines.len() - i,
    {
        let ghost before = records@;
        assert(all.take(i + 1).drop_last() == all.take(i as int));
        assert(all.take(i + 1).last() == line_view(lines[i as int]));
        match &lines[i] {
            Some(record) => {
                records.push(record.duplicate());
                assert(record_views(records@) =~= record_views(before).push(record@));
            },
            None => {},
        }
        i += 1;
    }
    assert(all.take(lines.len() as int) == all);
    records
}

} // verus!
