//! A session log that lies directly in the directory of its day is moved
//! into the directory of its working directory, below that day.
//!
//! The library decides and the caller acts: a `Migration` says what the
//! caller has to find out or do next, and `advance` takes what the caller
//! found to the next `Migration`.

use vstd::prelude::*;
use crate::names::{disambiguated_file_name, is_log_name, lemma_renamed_with_id, renamed_with_id};
use crate::record::{first_cwd, first_declared_cwd, record_views, RecordView, SessionRecord};
use crate::text::string_views;

verus! {

/// Where a log lies that is to be moved: `year/month/day/file_name` below
/// the root.
#[derive(Clone, Debug, PartialEq, Eq)]
pub struct LegacyLocation {
    pub year: String,
    pub month: String,
    pub day: String,
    pub file_name: String,
}

/// Where a log is moved to: the file `file_name` in the directory that the
/// segments `dir` lead to from the root.
#[derive(Clone, Debug, PartialEq, Eq)]
pub struct MoveTarget {
    pub dir: Vec<String>,
    pub file_name: String,
}

/// What the caller has to do next for one log.
#[derive(Clone, Debug, PartialEq, Eq)]
pub enum Migration {
    /// Nothing: the log stays where it is.
    Skip,
    /// Read the log and report its lines.
    ReadLog(LegacyLocation),
    /// Report the slug of the working directory `cwd`.
    FindSlug { from: LegacyLocation, cwd: String },
    /// Create the directory of the target, and report whether the target
    /// exists.
    Prepare(MoveTarget),
    /// Report a fresh identifier.
    FindId(MoveTarget),
    /// Rename the log to the target. Nothing follows.
    Move(MoveTarget),
}

/// What the caller found.
#[derive(Clone, Debug, PartialEq, Eq)]
pub enum MigrationEvent {
    /// The lines of the log.
    Log(Vec<SessionRecord>),
    /// The slug of the working directory.
    Slug(String),
    /// Whether the target exists.
    TargetExists(bool),
    /// A fresh identifier.
    FreshId(String),
}

/// The mathematical value of a `LegacyLocation`.
pub struct LocationView {
    pub year: Seq<char>,
    pub month: Seq<char>,
    pub day: Seq<char>,
    pub file_name: Seq<char>,
}

/// The mathematical value of a `MoveTarget`.
pub struct TargetView {
    pub dir: Seq<Seq<char>>,
    pub file_name: Seq<char>,
}

/// The mathematical value of a `Migration`.
pub enum MigrationView {
    Skip,
    ReadLog(LocationView),
    FindSlug { from: LocationView, cwd: Seq<char> },
    Prepare(TargetView),
    FindId(TargetView),
    Move(TargetView),
}

/// The mathematical value of a `MigrationEvent`.
pub enum EventView {
    Log(Seq<RecordView>),
    Slug(Seq<char>),
    TargetExists(bool),
    FreshId(Seq<char>),
}

impl View for LegacyLocation {
    type V = LocationView;

    open spec fn view(&self) -> LocationView {
        LocationView {
            year: self.year@,
            month: self.month@,
            day: self.day@,
            file_name: self.file_name@,
        }
    }
}

impl View for MoveTarget {
    type V = TargetView;

    open spec fn view(&self) -> TargetView {
        TargetView { dir: string_views(self.dir@), file_name: self.file_name@ }
    }
}

impl View for Migration {
    type V = MigrationView;

    open spec fn view(&self) -> MigrationView {
        match self {
            Migration::Skip => MigrationView::Skip,
            Migration::ReadLog(from) => MigrationView::ReadLog(from@),
            Migration::FindSlug { from, cwd } => MigrationView::FindSlug { from: from@, cwd: cwd@ },
            Migration::Prepare(to) => MigrationView::Prepare(to@),
            Migration::FindId(to) => MigrationView::FindId(to@),
            Migration::Move(to) => MigrationView::Move(to@),
        }
    }
}

impl View for MigrationEvent {
    type V = EventView;

    open spec fn view(&self) -> EventView {
        match self {
            MigrationEvent::Log(records) => EventView::Log(record_views(records@)),
            MigrationEvent::Slug(slug) => EventView::Slug(slug@),
            MigrationEvent::TargetExists(exists) => EventView::TargetExists(*exists),
            MigrationEvent::FreshId(id) => EventView::FreshId(id@),
        }
    }
}

/// What is to be done first with the log that `relative` leads to from the
/// root, one segment after the other: a log that lies exactly four segments
/// below the root is read, and any other stays.
pub open spec fn migration_start(relative: Seq<Seq<char>>) -> MigrationView {
    if relative.len() == 4 {
        MigrationView::ReadLog(
            LocationView {
                year: relative[0],
                month: relative[1],
                day: relative[2],
                file_name: relative[3],
            },
        )
    } else {
        MigrationView::Skip
    }
}

/// The place of a log in the directory `slug` below its day.
pub open spec fn canonical_target(from: LocationView, slug: Seq<char>) -> TargetView {
    TargetView { dir: seq![from.year, from.month, from.day, slug], file_name: from.file_name }
}

/// The segments that lead to a target from the root.
pub open spec fn target_path(to: TargetView) -> Seq<Seq<char>> {
    to.dir.push(to.file_name)
}

/// What is to be done after `event`, where `state` was to be done before it.
/// A log that names no working directory stays. A log goes to its place
/// below the slug of the first working directory it names, under its own
/// name, or, where that name is taken there, under its name with a fresh
/// identifier. An event that does not answer `state` changes nothing.
pub open spec fn migration_next(state: MigrationView, event: EventView) -> MigrationView {
    match (state, event) {
        (MigrationView::ReadLog(from), EventView::Log(records)) => match first_declared_cwd(
            records,
        ) {
            Some(cwd) => MigrationView::FindSlug { from, cwd },
            None => MigrationView::Skip,
        },
        (MigrationView::FindSlug { from, cwd }, EventView::Slug(slug)) => MigrationView::Prepare(
            canonical_target(from, slug),
        ),
        (MigrationView::Prepare(to), EventView::TargetExists(exists)) => if exists {
            MigrationView::FindId(to)
        } else {
            MigrationView::Move(to)
        },
        (MigrationView::FindId(to), EventView::FreshId(id)) => MigrationView::Move(
            TargetView { dir: to.dir, file_name: renamed_with_id(to.file_name, id) },
        ),
        _ => state,
    }
}

/// What is to be done first with the log that `relative` leads to from the
/// root, one segment after the other.
pub fn begin_migration(relative: &Vec<String>) -> (state: Migration)
    ensures
        state@ == migration_start(string_views(relative@)),
{
    if relative.len() == 4 {
        Migration::ReadLog(
            LegacyLocation {
                year: relative[0].clone(),
                month: relative[1].clone(),
                day: relative[2].clone(),
                file_name: relative[3].clone(),
            },
        )
    } else {
        Migration::Skip
    }
}

/// What is to be done after `event`, where `state` was to be done before it.
pub fn advance(state: Migration, event: MigrationEvent) -> (next: Migration)
    ensures
        next@ == migration_next(state@, event@),
{
    match (state, event) {
        (Migration::ReadLog(from), MigrationEvent::Log(records)) => match first_cwd(&records) {
            Some(cwd) => Migration::FindSlug { from, cwd },
            None => Migration::Skip,
        },
        (Migration::FindSlug { from, cwd: _ }, MigrationEvent::Slug(slug)) => {
            let mut dir: Vec<String> = Vec::new();
            dir.push(from.year);
            dir.push(from.month);
            dir.push(from.day);
            dir.push(slug);
            let to = MoveTarget { dir, file_name: from.file_name };
            assert(to@.dir =~= canonical_target(from@, slug@).dir);
            Migration::Prepare(to)
        },
        (Migration::Prepare(to), MigrationEvent::TargetExists(exists)) => if exists {
            Migration::FindId(to)
        } else {
            Migration::Move(to)
        },
        (Migration::FindId(to), MigrationEvent::FreshId(id)) => {
            let file_name = disambiguated_file_name(to.file_name.as_str(), id.as_str());
            Migration::Move(MoveTarget { dir: to.dir, file_name })
        },
        (state, _) => state,
    }
}

/// What is to be done after the events `events`, one after the other.
pub open spec fn migration_after(state: MigrationView, events: Seq<EventView>) -> MigrationView
    decreases events.len(),
{
    if events.len() == 0 {
        state
    } else {
        migration_after(migration_next(state, events[0]), events.drop_first())
    }
}

/// A log that lies deeper than four segments below the root, or less deep,
/// stays where it is, whatever it holds and whatever the caller reports.
pub proof fn lemma_other_depth_stays(relative: Seq<Seq<char>>, events: Seq<EventView>)
    requires
        relative.len() != 4,
    ensures
        migration_after(migration_start(relative), events) == MigrationView::Skip,
    decreases events.len(),
{
    if events.len() > 0 {
        lemma_skip_stays(events.drop_first());
    }
}

proof fn lemma_skip_stays(events: Seq<EventView>)
    ensures
        migration_after(MigrationView::Skip, events) == MigrationView::Skip,
    decreases events.len(),
{
    if events.len() > 0 {
        lemma_skip_stays(events.drop_first());
    }
}

/// A log that names no working directory stays where it is.
pub proof fn lemma_log_without_cwd_stays(relative: Seq<Seq<char>>, records: Seq<RecordView>)
    requires
        first_declared_cwd(records) is None,
    ensures
        migration_next(migration_start(relative), EventView::Log(records)) == MigrationView::Skip,
{
}

/// A log that lies at `year/month/day/name` and names a working directory
/// is moved to `year/month/day/slug/name`, where `slug` is the slug reported
/// for the first working directory it names, if nothing lies there yet.
pub proof fn lemma_log_moves_below_slug(
    relative: Seq<Seq<char>>,
    records: Seq<RecordView>,
    slug: Seq<char>,
)
    requires
        relative.len() == 4,
        first_declared_cwd(records) is Some,
    ensures
        migration_next(migration_start(relative), EventView::Log(records))
            == (MigrationView::FindSlug {
            from: LocationView {
                year: relative[0],
                month: relative[1],
                day: relative[2],
                file_name: relative[3],
            },
            cwd: first_declared_cwd(records)->0,
        }),
        migration_next(
            migration_next(
                migration_next(migration_start(relative), EventView::Log(records)),
                EventView::Slug(slug),
            ),
            EventView::TargetExists(false),
        ) == MigrationView::Move(
            TargetView {
                dir: seq![relative[0], relative[1], relative[2], slug],
                file_name: relative[3],
            },
        ),
{
}

/// Where something lies already at the place that a log would take, the log
/// is moved to the same directory under its name with a fresh identifier:
/// the name of a session log, and another than the name that is taken, so
/// that what lies there is not touched.
pub proof fn lemma_collision_takes_fresh_name(
    relative: Seq<Seq<char>>,
    records: Seq<RecordView>,
    slug: Seq<char>,
    id: Seq<char>,
)
    requires
        relative.len() == 4,
        first_declared_cwd(records) is Some,
    ensures
        migration_next(
            migration_next(
                migration_next(
                    migration_next(migration_start(relative), EventView::Log(records)),
                    EventView::Slug(slug),
                ),
                EventView::TargetExists(true),
            ),
            EventView::FreshId(id),
        ) == MigrationView::Move(
            TargetView {
                dir: seq![relative[0], relative[1], relative[2], slug],
                file_name: renamed_with_id(relative[3], id),
            },
        ),
        renamed_with_id(relative[3], id) != relative[3],
        is_log_name(renamed_with_id(relative[3], id)),
{
    lemma_renamed_with_id(relative[3], id);
}

/// A log that was moved is not moved again: where it lies now, five
/// segments below the root, it stays, under whichever name it was moved.
pub proof fn lemma_moved_log_stays(
    from: LocationView,
    slug: Seq<char>,
    file_name: Seq<char>,
    events: Seq<EventView>,
)
    ensures
        target_path(TargetView { dir: canonical_target(from, slug).dir, file_name }).len() == 5,
        migration_after(
            migration_start(
                target_path(TargetView { dir: canonical_target(from, slug).dir, file_name }),
            ),
            events,
        ) == MigrationView::Skip,
{
    lemma_other_depth_stays(
        target_path(TargetView { dir: canonical_target(from, slug).dir, file_name }),
        events,
    );
}

} // verus!
