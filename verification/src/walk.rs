//! The walk of a directory tree in search of session logs, with a stack of
//! the directories still to list in place of recursion.

use vstd::prelude::*;
use crate::names::{backup_name, has_log_extension, is_log_name, lemma_backup_is_not_log};
use crate::text::string_views;

verus! {

/// One entry of a directory.
#[derive(Clone, Debug, PartialEq, Eq)]
pub struct DirEntry {
    /// The path of the entry.
    pub path: String,
    /// The last segment of the path.
    pub file_name: String,
    /// Whether the entry is a directory.
    pub is_dir: bool,
}

/// The mathematical value of a `DirEntry`.
pub struct EntryView {
    pub path: Seq<char>,
    pub file_name: Seq<char>,
    pub is_dir: bool,
}

impl View for DirEntry {
    type V = EntryView;

    open spec fn view(&self) -> EntryView {
        EntryView { path: self.path@, file_name: self.file_name@, is_dir: self.is_dir }
    }
}

/// The values of the entries of a directory, in order.
pub open spec fn entry_views(entries: Seq<DirEntry>) -> Seq<EntryView> {
    entries.map_values(|e: DirEntry| e@)
}

/// The entry is a session log: a file whose name has the extension of one.
pub open spec fn is_log_entry(entry: EntryView) -> bool {
    !entry.is_dir && is_log_name(entry.file_name)
}

/// The paths of the directories among the entries, in order.
pub open spec fn subdirectories(entries: Seq<EntryView>) -> Seq<Seq<char>>
    decreases entries.len(),
{
    if entries.len() == 0 {
        Seq::empty()
    } else if entries.last().is_dir {
        subdirectories(entries.drop_last()).push(entries.last().path)
    } else {
        subdirectories(entries.drop_last())
    }
}

/// The paths of the session logs among the entries, in order.
pub open spec fn log_paths(entries: Seq<EntryView>) -> Seq<Seq<char>>
    decreases entries.len(),
{
    if entries.len() == 0 {
        Seq::empty()
    } else if is_log_entry(entries.last()) {
        log_paths(entries.drop_last()).push(entries.last().path)
    } else {
        log_paths(entries.drop_last())
    }
}

/// The directories that a walk has still to list.
pub struct Walker {
    pending: Vec<String>,
}

impl Walker {
    /// The paths of the directories still to list; the last is listed next.
    pub closed spec fn pending(&self) -> Seq<Seq<char>> {
        self.pending@.map_values(|d: String| d@)
    }

    /// A walk that has the directory `root` to list, and what lies below it.
    pub fn new(root: String) -> (walker: Self)
        ensures
            walker.pending() == seq![root@],
    {
        let mut pending: Vec<String> = Vec::new();
        pending.push(root);
        let walker = Walker { pending };
        assert(walker.pending() =~= seq![root@]);
        walker
    }

    /// The directory to list next, which is then no longer pending; `None`
    /// where the walk is at its end.
    pub fn next_dir(&mut self) -> (dir: Option<String>)
        ensures
            match dir {
                Some(d) => old(self).pending().len() > 0 && d@ == old(self).pending().last()
                    && final(self).pending() == old(self).pending().drop_last(),
                None => old(self).pending().len() == 0 && final(self).pending() == old(
                    self,
                ).pending(),
            },
    {
        let dir = self.pending.pop();
        proof {
            if dir is Some {
                assert(self.pending() =~= old(self).pending().drop_last());
            }
        }
        dir
    }

    /// Takes in the entries of a directory that was listed: the directories
    /// among them become pending, after those that are pending already, and
    /// the session logs among them are handed out.
    pub fn visit(&mut self, entries: &Vec<DirEntry>) -> (logs: Vec<String>)
        ensures
            final(self).pending() == old(self).pending() + subdirectories(entry_views(entries@)),
            string_views(logs@) == log_paths(entry_views(entries@)),
    {
        let ghost all = entry_views(entries@);
        let mut logs: Vec<String> = Vec::new();
        let mut i: usize = 0;
        assert(self.pending() =~= old(self).pending() + subdirectories(all.take(0)));
        assert(string_views(logs@) =~= log_paths(all.take(0)));
        while i < entries.len()
            invariant
                i <= entries.len(),
                all == entry_views(entries@),
                self.pending() == old(self).pending() + subdirectories(all.take(i as int)),
                string_views(logs@) == log_paths(all.take(i as int)),
            decreases entries.len() - i,
        {
            let entry = &entries[i];
            let ghost before = self.pending();
            let ghost found = string_views(logs@);
            assert(all.take(i + 1).drop_last() == all.take(i as int));
            assert(all.take(i + 1).last() == entry@);
            if entry.is_dir {
                self.pending.push(entry.path.clone());
                assert(self.pending() =~= before.push(entry.path@));
                assert(self.pending() =~= old(self).pending() + subdirectories(all.take(i + 1)));
            } else if has_log_extension(entry.file_name.as_str()) {
                logs.push(entry.path.clone());
                assert(string_views(logs@) =~= found.push(entry.path@));
            }
            i += 1;
        }
        assert(all.take(entries.len() as int) == all);
        logs
    }
}

/// The logs handed out of a directory are the files among its entries that
/// have the name of a session log, and no others.
pub proof fn lemma_log_paths(entries: Seq<EntryView>)
    ensures
        forall|i: int|
            0 <= i < entries.len() && is_log_entry(#[trigger] entries[i]) ==> log_paths(
                entries,
            ).contains(entries[i].path),
        forall|p: Seq<char>| #[trigger]
            log_paths(entries).contains(p) ==> exists|i: int|
                0 <= i < entries.len() && is_log_entry(entries[i]) && entries[i].path == p,
    decreases entries.len(),
{
    if entries.len() > 0 {
        let rest = entries.drop_last();
        lemma_log_paths(rest);
        let paths = log_paths(entries);
        assert forall|i: int| 0 <= i < entries.len() && is_log_entry(
            #[trigger] entries[i],
        ) implies paths.contains(entries[i].path) by {
            if i < rest.len() {
                assert(rest[i] == entries[i]);
                let at = choose|at: int|
                    0 <= at < log_paths(rest).len() && log_paths(rest)[at] == entries[i].path;
                assert(paths[at] == entries[i].path);
            } else {
                assert(paths[paths.len() - 1] == entries[i].path);
            }
        }
        assert forall|p: Seq<char>| #[trigger] paths.contains(p) implies exists|i: int|
            0 <= i < entries.len() && is_log_entry(entries[i]) && entries[i].path == p by {
            let at = choose|at: int| 0 <= at < paths.len() && paths[at] == p;
            if at < log_paths(rest).len() {
                assert(log_paths(rest).contains(p));
                let i = choose|i: int| 0 <= i < rest.len() && is_log_entry(rest[i]) && rest[i].path == p;
                assert(is_log_entry(entries[i]) && entries[i].path == p);
            } else {
                let i = entries.len() - 1;
                assert(is_log_entry(entries[i]) && entries[i].path == p);
            }
        }
    }
}

/// A log that was split and kept is not among the logs that a walk hands
/// out.
pub proof fn lemma_backup_is_not_handed_out(entry: EntryView, name: Seq<char>)
    requires
        entry.file_name == backup_name(name),
    ensures
        !is_log_entry(entry),
{
    lemma_backup_is_not_log(name);
}

} // verus!
