//! The lines of a session log, filed by working directory.

use vstd::prelude::*;
use crate::cwd::cwd_key;
use crate::record::{
    attribute, declared_cwd, declared_key, key_at, record_views, unknown_key,
    unknown_key_string, RecordView, SessionRecord,
};
use crate::text::text_view;

verus! {

/// The lines of a log that are filed under one key.
#[derive(Clone, Debug, PartialEq, Eq)]
pub struct CwdGroup {
    /// The key that the lines are filed under.
    pub key: String,
    /// The working directory as the first line that names it under this key
    /// wrote it; `None` where no line names one.
    pub cwd: Option<String>,
    /// The positions of the lines in the log, ascending.
    pub members: Vec<usize>,
}

/// The mathematical value of a `CwdGroup`.
pub struct GroupView {
    pub key: Seq<char>,
    pub cwd: Option<Seq<char>>,
    pub members: Seq<int>,
}

impl View for CwdGroup {
    type V = GroupView;

    open spec fn view(&self) -> GroupView {
        GroupView {
            key: self.key@,
            cwd: text_view(self.cwd),
            members: self.members@.map_values(|m: usize| m as int),
        }
    }
}

/// The values of a list of groups, in order.
pub open spec fn group_views(groups: Seq<CwdGroup>) -> Seq<GroupView> {
    groups.map_values(|g: CwdGroup| g@)
}

/// The different keys of the first `n` lines, each where it first occurs.
pub open spec fn keys_upto(records: Seq<RecordView>, n: int) -> Seq<Seq<char>>
    decreases n,
{
    if n <= 0 {
        Seq::empty()
    } else {
        let before = keys_upto(records, n - 1);
        if before.contains(key_at(records, n - 1)) {
            before
        } else {
            before.push(key_at(records, n - 1))
        }
    }
}

/// The positions, ascending, of those of the first `n` lines that are filed
/// under `key`.
pub open spec fn members_upto(records: Seq<RecordView>, key: Seq<char>, n: int) -> Seq<int>
    decreases n,
{
    if n <= 0 {
        Seq::empty()
    } else {
        let before = members_upto(records, key, n - 1);
        if key_at(records, n - 1) == key {
            before.push(n - 1)
        } else {
            before
        }
    }
}

/// The working directory as the first of the first `n` lines that names one
/// with the key `key` wrote it.
pub open spec fn cwd_upto(records: Seq<RecordView>, key: Seq<char>, n: int) -> Option<Seq<char>>
    decreases n,
{
    if n <= 0 {
        None
    } else {
        match cwd_upto(records, key, n - 1) {
            Some(cwd) => Some(cwd),
            None => if declared_key(records[n - 1].kind) == Some(key) {
                declared_cwd(records[n - 1].kind)
            } else {
                None
            },
        }
    }
}

/// The groups that the first `n` lines of a log fall into, in the order in
/// which their keys first occur.
pub open spec fn groups_upto(records: Seq<RecordView>, n: int) -> Seq<GroupView> {
    Seq::new(
        keys_upto(records, n).len(),
        |g: int|
            GroupView {
                key: keys_upto(records, n)[g],
                cwd: cwd_upto(records, keys_upto(records, n)[g], n),
                members: members_upto(records, keys_upto(records, n)[g], n),
            },
    )
}

/// The groups that the lines of a log fall into.
pub open spec fn groups_of(records: Seq<RecordView>) -> Seq<GroupView> {
    groups_upto(records, records.len() as int)
}

/// A line that names a working directory is filed under the key of that
/// directory.
pub proof fn lemma_declared_key_is_key(records: Seq<RecordView>, i: int)
    requires
        0 <= i,
        declared_key(records[i].kind) is Some,
    ensures
        declared_key(records[i].kind) == Some(key_at(records, i)),
{
}

/// The keys of the first `n` lines are the keys under which these lines are
/// filed, each once.
pub proof fn lemma_keys_upto(records: Seq<RecordView>, n: int)
    requires
        0 <= n,
    ensures
        keys_upto(records, n).no_duplicates(),
        forall|i: int| 0 <= i < n ==> keys_upto(records, n).contains(#[trigger] key_at(records, i)),
        forall|g: int|
            0 <= g < keys_upto(records, n).len() ==> exists|i: int|
                0 <= i < n && key_at(records, i) == #[trigger] keys_upto(records, n)[g],
    decreases n,
{
    if n > 0 {
        lemma_keys_upto(records, n - 1);
        let before = keys_upto(records, n - 1);
        let now = keys_upto(records, n);
        let key = key_at(records, n - 1);
        if before.contains(key) {
            assert forall|g: int| 0 <= g < now.len() implies exists|i: int|
                0 <= i < n && key_at(records, i) == #[trigger] now[g] by {
                let i = choose|i: int| 0 <= i < n - 1 && key_at(records, i) == before[g];
                assert(0 <= i < n && key_at(records, i) == now[g]);
            }
        } else {
            assert(now[before.len() as int] == key);
            assert forall|i: int| 0 <= i < n implies now.contains(
                #[trigger] key_at(records, i),
            ) by {
                if i < n - 1 {
                    let g = choose|g: int|
                        0 <= g < before.len() && before[g] == key_at(records, i);
                    assert(now[g] == key_at(records, i));
                }
            }
            assert forall|g: int| 0 <= g < now.len() implies exists|i: int|
                0 <= i < n && key_at(records, i) == #[trigger] now[g] by {
                if g < before.len() {
                    let i = choose|i: int| 0 <= i < n - 1 && key_at(records, i) == before[g];
                    assert(0 <= i < n && key_at(records, i) == now[g]);
                } else {
                    assert(0 <= n - 1 < n && key_at(records, n - 1) == now[g]);
                }
            }
            assert forall|g: int, h: int|
                0 <= g < now.len() && 0 <= h < now.len() && g != h implies now[g] != now[h] by {
                if g < before.len() && h < before.len() {
                } else if g < before.len() {
                    assert(before.contains(before[g]));
                } else {
                    assert(before.contains(before[h]));
                }
            }
        }
    }
}

/// The members of a key among the first `n` lines are the positions of the
/// lines filed under that key, in ascending order.
pub proof fn lemma_members_upto(records: Seq<RecordView>, key: Seq<char>, n: int)
    requires
        0 <= n,
    ensures
        forall|i: int| #[trigger]
            members_upto(records, key, n).contains(i) ==> 0 <= i < n && key_at(records, i) == key,
        forall|i: int|
            0 <= i < n && #[trigger] key_at(records, i) == key ==> members_upto(
                records,
                key,
                n,
            ).contains(i),
        forall|a: int, b: int|
            0 <= a < b < members_upto(records, key, n).len() ==> members_upto(records, key, n)[a]
                < members_upto(records, key, n)[b],
        members_upto(records, key, n).len() <= n,
    decreases n,
{
    if n > 0 {
        lemma_members_upto(records, key, n - 1);
        let before = members_upto(records, key, n - 1);
        let now = members_upto(records, key, n);
        if key_at(records, n - 1) == key {
            assert(now == before.push(n - 1));
            assert(now[before.len() as int] == n - 1);
            assert forall|i: int| #[trigger] now.contains(i) implies 0 <= i < n && key_at(
                records,
                i,
            ) == key by {
                let a = choose|a: int| 0 <= a < now.len() && now[a] == i;
                if a < before.len() {
                    assert(now[a] == before[a]);
                    assert(before.contains(i));
                }
            }
            assert forall|i: int| 0 <= i < n && #[trigger] key_at(records, i) == key implies now.contains(
                i,
            ) by {
                if i < n - 1 {
                    assert(before.contains(i));
                    let a = choose|a: int| 0 <= a < before.len() && before[a] == i;
                    assert(now[a] == i);
                }
            }
            assert forall|a: int, b: int| 0 <= a < b < now.len() implies now[a] < now[b] by {
                assert(now[a] == before[a]);
                assert(before.contains(before[a]));
                if b < before.len() {
                    assert(now[b] == before[b]);
                }
            }
        }
    }
}

/// The working directory noted for a key is one that a line wrote and whose
/// key it is, and one is noted as soon as a line names a directory with that
/// key.
pub proof fn lemma_cwd_upto(records: Seq<RecordView>, key: Seq<char>, n: int)
    requires
        0 <= n,
    ensures
        cwd_upto(records, key, n) matches Some(cwd) ==> cwd_key(cwd) == key,
        forall|i: int|
            0 <= i < n && #[trigger] declared_key(records[i].kind) == Some(key) ==> cwd_upto(
                records,
                key,
                n,
            ) is Some,
        cwd_upto(records, key, n) is Some ==> exists|i: int|
            0 <= i < n && key_at(records, i) == key,
    decreases n,
{
    if n > 0 {
        lemma_cwd_upto(records, key, n - 1);
        if cwd_upto(records, key, n - 1) is Some {
            let i = choose|i: int| 0 <= i < n - 1 && key_at(records, i) == key;
            assert(0 <= i < n && key_at(records, i) == key);
        } else if declared_key(records[n - 1].kind) == Some(key) {
            assert(0 <= n - 1 < n && key_at(records, n - 1) == key);
        }
    }
}

/// Where the next line is filed under a key that a group has already, it
/// joins that group, and gives the group its working directory if the group
/// has none yet; the other groups stay as they are.
proof fn lemma_groups_step_joined(records: Seq<RecordView>, i: int, g: int)
    requires
        0 <= i,
        0 <= g < groups_upto(records, i).len(),
        groups_upto(records, i)[g].key == key_at(records, i),
    ensures
        groups_upto(records, i + 1) == groups_upto(records, i).update(
            g,
            GroupView {
                key: key_at(records, i),
                cwd: match groups_upto(records, i)[g].cwd {
                    Some(cwd) => Some(cwd),
                    None => declared_cwd(records[i].kind),
                },
                members: groups_upto(records, i)[g].members.push(i),
            },
        ),
{
    let before = groups_upto(records, i);
    let keys = keys_upto(records, i);
    let key = key_at(records, i);
    lemma_keys_upto(records, i);
    assert(keys[g] == key);
    assert(keys_upto(records, i + 1) == keys);
    let after = groups_upto(records, i + 1);
    let expected = before.update(
        g,
        GroupView {
            key,
            cwd: match before[g].cwd {
                Some(cwd) => Some(cwd),
                None => declared_cwd(records[i].kind),
            },
            members: before[g].members.push(i),
        },
    );
    assert forall|h: int| 0 <= h < after.len() implies after[h] == expected[h] by {
        if h != g {
            assert(keys[h] != key);
        }
    }
    assert(after =~= expected);
}

/// Where the next line is filed under a key that no group has yet, it opens
/// a group of its own, after the others.
proof fn lemma_groups_step_opened(records: Seq<RecordView>, i: int)
    requires
        0 <= i,
        forall|g: int|
            0 <= g < groups_upto(records, i).len() ==> (#[trigger] groups_upto(records, i)[g]).key
                != key_at(records, i),
    ensures
        groups_upto(records, i + 1) == groups_upto(records, i).push(
            GroupView {
                key: key_at(records, i),
                cwd: declared_cwd(records[i].kind),
                members: seq![i],
            },
        ),
{
    let before = groups_upto(records, i);
    let keys = keys_upto(records, i);
    let key = key_at(records, i);
    lemma_keys_upto(records, i);
    lemma_members_upto(records, key, i);
    lemma_cwd_upto(records, key, i);
    if keys.contains(key) {
        let g = choose|g: int| 0 <= g < keys.len() && keys[g] == key;
        assert(before[g].key == key);
    }
    assert(keys_upto(records, i + 1) == keys.push(key));
    assert(members_upto(records, key, i) =~= Seq::<int>::empty()) by {
        if members_upto(records, key, i).len() > 0 {
            let m = members_upto(records, key, i)[0];
            assert(members_upto(records, key, i).contains(m));
            assert(keys.contains(key_at(records, m)));
        }
    }
    assert(cwd_upto(records, key, i) is None) by {
        if cwd_upto(records, key, i) is Some {
            let m = choose|m: int| 0 <= m < i && key_at(records, m) == key;
            assert(keys.contains(key_at(records, m)));
        }
    }
    let after = groups_upto(records, i + 1);
    let expected = before.push(
        GroupView { key, cwd: declared_cwd(records[i].kind), members: seq![i] },
    );
    assert forall|h: int| 0 <= h < after.len() implies after[h] == expected[h] by {
        if h < keys.len() {
            assert(keys[h] != key) by {
                assert(before[h].key == keys[h]);
            }
        } else {
            assert(after[h].members =~= seq![i]);
        }
    }
    assert(after =~= expected);
}

/// The position of the group with the key `key`, if there is one.
fn find_group(groups: &Vec<CwdGroup>, key: &String) -> (at: Option<usize>)
    ensures
        match at {
            Some(g) => g < groups.len() && groups[g as int].key@ == key@,
            None => forall|g: int| 0 <= g < groups.len() ==> (#[trigger] groups[g]).key@ != key@,
        },
{
    let mut g: usize = 0;
    while g < groups.len()
        invariant
            g <= groups.len(),
            forall|h: int| 0 <= h < g ==> (#[trigger] groups[h]).key@ != key@,
        decreases groups.len() - g,
    {
        if groups[g].key == *key {
            return Some(g);
        }
        g += 1;
    }
    None
}

/// The groups that the lines of a log fall into: each line is filed under the
/// key of the last working directory named at or before it, the lines of a
/// group keep their order, and the groups stand in the order in which their
/// keys first occur.
pub fn group_by_cwd(records: &Vec<SessionRecord>) -> (groups: Vec<CwdGroup>)
    ensures
        group_views(groups@) == groups_of(record_views(records@)),
{
    let ghost rs = record_views(records@);
    let mut groups: Vec<CwdGroup> = Vec::new();
    let mut current: Option<String> = None;
    let mut i: usize = 0;
    assert(group_views(groups@) =~= groups_upto(rs, 0));
    while i < records.len()
        invariant
            i <= records.len(),
            rs == record_views(records@),
            group_views(groups@) == groups_upto(rs, i as int),
            match current {
                Some(key) => i > 0 && key@ == key_at(rs, i - 1),
                None => key_at(rs, i - 1) == unknown_key(),
            },
        decreases records.len() - i,
    {
        let ghost before = groups@;
        current = attribute(current, &records[i]);
        let key = match &current {
            Some(key) => key.clone(),
            None => unknown_key_string(),
        };
        assert(key@ == key_at(rs, i as int));
        let declared = match records[i].kind.declared_cwd() {
            Some(cwd) => Some(cwd.clone()),
            None => None,
        };
        assert(text_view(declared) == declared_cwd(rs[i as int].kind));
        match find_group(&groups, &key) {
            Some(g) => {
                assert(group_views(before)[g as int].key == key@);
                proof {
                    lemma_groups_step_joined(rs, i as int, g as int);
                }
                if groups[g].cwd.is_none() {
                    groups[g].cwd = declared;
                }
                groups[g].members.push(i);
                assert(groups@[g as int].members@.map_values(|m: usize| m as int)
                    =~= before[g as int].members@.map_values(|m: usize| m as int).push(i as int));
                assert(group_views(groups@) =~= groups_upto(rs, i + 1));
            },
            None => {
                proof {
                    assert forall|g: int| 0 <= g < groups_upto(rs, i as int).len() implies (
                    #[trigger] groups_upto(rs, i as int)[g]).key != key_at(rs, i as int) by {
                        assert(group_views(before)[g].key == before[g].key@);
                    }
                    lemma_groups_step_opened(rs, i as int);
                }
                let mut members: Vec<usize> = Vec::new();
                members.push(i);
                assert(members@.map_values(|m: usize| m as int) =~= seq![i as int]);
                groups.push(CwdGroup { key, cwd: declared, members });
                assert(group_views(groups@) =~= groups_upto(rs, i + 1));
            },
        }
        i += 1;
    }
    groups
}

/// The number of lines in all the groups together.
pub open spec fn total_members(groups: Seq<GroupView>) -> nat
    decreases groups.len(),
{
    if groups.len() == 0 {
        0
    } else {
        total_members(groups.drop_last()) + groups.last().members.len()
    }
}

proof fn lemma_total_members_update(groups: Seq<GroupView>, g: int, group: GroupView)
    requires
        0 <= g < groups.len(),
    ensures
        total_members(groups.update(g, group)) + groups[g].members.len() == total_members(groups)
            + group.members.len(),
    decreases groups.len(),
{
    let updated = groups.update(g, group);
    if g == groups.len() - 1 {
        assert(updated.drop_last() == groups.drop_last());
    } else {
        assert(updated.drop_last() == groups.drop_last().update(g, group));
        lemma_total_members_update(groups.drop_last(), g, group);
    }
}

proof fn lemma_total_members_upto(records: Seq<RecordView>, n: int)
    requires
        0 <= n,
    ensures
        total_members(groups_upto(records, n)) == n,
    decreases n,
{
    if n == 0 {
        assert(groups_upto(records, 0).len() == 0);
    } else {
        lemma_total_members_upto(records, n - 1);
        let before = groups_upto(records, n - 1);
        let key = key_at(records, n - 1);
        if exists|g: int| 0 <= g < before.len() && before[g].key == key {
            let g = choose|g: int| 0 <= g < before.len() && before[g].key == key;
            lemma_groups_step_joined(records, n - 1, g);
            let joined = GroupView {
                key,
                cwd: match before[g].cwd {
                    Some(cwd) => Some(cwd),
                    None => declared_cwd(records[n - 1].kind),
                },
                members: before[g].members.push(n - 1),
            };
            lemma_total_members_update(before, g, joined);
        } else {
            lemma_groups_step_opened(records, n - 1);
            let opened = GroupView {
                key,
                cwd: declared_cwd(records[n - 1].kind),
                members: seq![n - 1],
            };
            assert(before.push(opened).drop_last() == before);
        }
    }
}

/// No line is lost and none is filed twice: the groups of a log hold as many
/// lines as the log.
pub proof fn lemma_groups_hold_every_line(records: Seq<RecordView>)
    ensures
        total_members(groups_of(records)) == records.len(),
{
    lemma_total_members_upto(records, records.len() as int);
}

/// The groups of a log part its lines by key. The groups have different
/// keys. A group holds the positions of exactly the lines that are filed
/// under its key, in ascending order, and at least one. The groups stand in
/// the order of their first lines.
pub proof fn lemma_groups_part_by_key(records: Seq<RecordView>)
    ensures
        forall|g: int, h: int|
            0 <= g < h < groups_of(records).len() ==> (#[trigger] groups_of(records)[g]).key != (
            #[trigger] groups_of(records)[h]).key,
        forall|g: int, i: int|
            0 <= g < groups_of(records).len() ==> (#[trigger] groups_of(records)[g].members.contains(
                i,
            ) <==> 0 <= i < records.len() && key_at(records, i) == groups_of(records)[g].key),
        forall|g: int, a: int, b: int|
            0 <= g < groups_of(records).len() && 0 <= a < b < groups_of(
                records,
            )[g].members.len() ==> (#[trigger] groups_of(records)[g].members[a]) < (
            #[trigger] groups_of(records)[g].members[b]),
        forall|g: int|
            0 <= g < groups_of(records).len() ==> (#[trigger] groups_of(records)[g]).members.len()
                > 0,
        forall|g: int, h: int|
            0 <= g < h < groups_of(records).len() ==> (#[trigger] groups_of(records)[g]).members[0]
                < (#[trigger] groups_of(records)[h]).members[0],
{
    let n = records.len() as int;
    let keys = keys_upto(records, n);
    let groups = groups_of(records);
    lemma_keys_upto(records, n);
    assert forall|g: int, i: int| 0 <= g < groups.len() implies (#[trigger] groups[g].members.contains(
        i,
    ) <==> 0 <= i < n && key_at(records, i) == groups[g].key) by {
        lemma_members_upto(records, keys[g], n);
    }
    assert forall|g: int, a: int, b: int|
        0 <= g < groups.len() && 0 <= a < b < groups[g].members.len() implies (
    #[trigger] groups[g].members[a]) < (#[trigger] groups[g].members[b]) by {
        lemma_members_upto(records, keys[g], n);
    }
    assert forall|g: int| 0 <= g < groups.len() implies (#[trigger] groups[g]).members.len()
        > 0 by {
        let i = choose|i: int| 0 <= i < n && key_at(records, i) == keys[g];
        assert(groups[g].members.contains(i));
    }
    assert forall|g: int, h: int| 0 <= g < h < groups.len() implies (#[trigger] groups[g]).members[0]
        < (#[trigger] groups[h]).members[0] by {
        lemma_first_members_ascend(records, n, g, h);
    }
}

/// Of two groups, the one that stands first has the earlier first line.
proof fn lemma_first_members_ascend(records: Seq<RecordView>, n: int, g: int, h: int)
    requires
        0 <= n,
        0 <= g < h < keys_upto(records, n).len(),
    ensures
        members_upto(records, keys_upto(records, n)[g], n).len() > 0,
        members_upto(records, keys_upto(records, n)[h], n).len() > 0,
        members_upto(records, keys_upto(records, n)[g], n)[0] < members_upto(
            records,
            keys_upto(records, n)[h],
            n,
        )[0],
    decreases n,
{
    let keys = keys_upto(records, n);
    let before = keys_upto(records, n - 1);
    lemma_keys_upto(records, n);
    lemma_keys_upto(records, n - 1);
    lemma_members_upto(records, keys[g], n - 1);
    lemma_members_upto(records, keys[h], n - 1);
    lemma_members_upto(records, keys[g], n);
    lemma_members_upto(records, keys[h], n);
    let key = key_at(records, n - 1);
    let mg = members_upto(records, keys[g], n);
    let mh = members_upto(records, keys[h], n);
    let ig = choose|i: int| 0 <= i < n && key_at(records, i) == keys[g];
    let ih = choose|i: int| 0 <= i < n && key_at(records, i) == keys[h];
    assert(mg.contains(ig));
    assert(mh.contains(ih));
    if h < before.len() {
        assert(before[g] == keys[g] && before[h] == keys[h]);
        lemma_first_members_ascend(records, n - 1, g, h);
        assert(mg[0] == members_upto(records, keys[g], n - 1)[0]);
        assert(mh[0] == members_upto(records, keys[h], n - 1)[0]);
    } else {
        assert(keys == before.push(key));
        assert(keys[h] == key);
        assert(before[g] == keys[g]);
        assert(members_upto(records, key, n - 1) =~= Seq::<int>::empty()) by {
            if members_upto(records, key, n - 1).len() > 0 {
                let m = members_upto(records, key, n - 1)[0];
                assert(members_upto(records, key, n - 1).contains(m));
                assert(before.contains(key_at(records, m)));
            }
        }
        assert(mh[0] == n - 1);
        assert(keys[g] != key);
        assert(mg.contains(mg[0]));
    }
}

/// A log whose lines are all filed under one key, and a log without lines,
/// has one group at most.
pub proof fn lemma_one_key_one_group(records: Seq<RecordView>)
    requires
        forall|i: int, j: int|
            0 <= i < records.len() && 0 <= j < records.len() ==> key_at(records, i) == key_at(
                records,
                j,
            ),
    ensures
        groups_of(records).len() <= 1,
{
    let n = records.len() as int;
    let keys = keys_upto(records, n);
    lemma_keys_upto(records, n);
    if keys.len() >= 2 {
        let i = choose|i: int| 0 <= i < n && key_at(records, i) == keys[0];
        let j = choose|j: int| 0 <= j < n && key_at(records, j) == keys[1];
        assert(keys[0] == keys[1]);
    }
}

/// A log whose lines are filed under two keys, each at some line, has
/// exactly two groups.
pub proof fn lemma_two_keys_two_groups(records: Seq<RecordView>, a: Seq<char>, b: Seq<char>)
    requires
        a != b,
        exists|i: int| 0 <= i < records.len() && key_at(records, i) == a,
        exists|i: int| 0 <= i < records.len() && key_at(records, i) == b,
        forall|i: int|
            0 <= i < records.len() ==> key_at(records, i) == a || key_at(records, i) == b,
    ensures
        groups_of(records).len() == 2,
{
    let n = records.len() as int;
    let keys = keys_upto(records, n);
    lemma_keys_upto(records, n);
    let ia = choose|i: int| 0 <= i < records.len() && key_at(records, i) == a;
    let ib = choose|i: int| 0 <= i < records.len() && key_at(records, i) == b;
    assert(keys.contains(key_at(records, ia)));
    assert(keys.contains(key_at(records, ib)));
    let ga = choose|g: int| 0 <= g < keys.len() && keys[g] == a;
    let gb = choose|g: int| 0 <= g < keys.len() && keys[g] == b;
    assert(ga != gb);
    if keys.len() >= 3 {
        let i0 = choose|i: int| 0 <= i < n && key_at(records, i) == keys[0];
        let i1 = choose|i: int| 0 <= i < n && key_at(records, i) == keys[1];
        let i2 = choose|i: int| 0 <= i < n && key_at(records, i) == keys[2];
        assert(keys[0] == keys[1] || keys[0] == keys[2] || keys[1] == keys[2]);
    }
}

} // verus!
