//! Repository states: what a state report says, and what changed between two states.
use crate::ast;
use crate::maps;
use crate::maps::{TextMap, TextSet};
use crate::order;
use crate::order::Order;
use crate::output;
use crate::output::{
    ComparedStateJson, ComparedStateJsonModel, Envelope, EnvelopeModel, RepoJson,
    StateChangeJson, StateChangeJsonModel, StateJson, StateJsonModel,
};
use crate::repo;
use crate::repo::{Entry, EntryModel, Kind};
use crate::store::{SnapshotEntries, SnapshotInfo, SnapshotModel};
use crate::text;
use crate::{CmdError, CmdErrorModel};
use vstd::prelude::*;

verus! {

/// A recorded entry: its path, the name of its kind and its hash.
pub type RecordedModel = (Seq<char>, Seq<char>, Seq<char>);

// ---------------------------------------------------------------------------------------------
// Changes
// ---------------------------------------------------------------------------------------------

/// Kind name and hash of the last recorded entry with this path.
pub open spec fn recorded_at(recorded: Seq<RecordedModel>, path: Seq<char>) -> Option<
    (Seq<char>, Seq<char>),
>
    decreases recorded.len(),
{
    if recorded.len() == 0 {
        None
    } else if recorded.last().0 == path {
        Some((recorded.last().1, recorded.last().2))
    } else {
        recorded_at(recorded.drop_last(), path)
    }
}

/// Whether an entry with this path exists that is no directory.
pub open spec fn has_leaf(entries: Seq<EntryModel>, path: Seq<char>) -> bool {
    exists|k: int|
        0 <= k < entries.len() && (#[trigger] entries[k]).path == path && entries[k].kind
            != Kind::Dir
}

/// How an entry differs from the recorded state. Directories never do: a directory hash is a
/// function of its children, so a changed directory comes with a changed leaf.
pub open spec fn change_of(entry: EntryModel, recorded: Seq<RecordedModel>) -> Option<
    StateChangeJsonModel,
> {
    let kind = repo::kind_name(entry.kind);
    if entry.kind == Kind::Dir {
        None
    } else {
        match recorded_at(recorded, entry.path) {
            None => Some(
                StateChangeJsonModel {
                    path: entry.path,
                    kind,
                    change: "added"@,
                    hash: Some(entry.hash),
                    previous_hash: None,
                    previous_kind: None,
                },
            ),
            Some((old_kind, old_hash)) => if old_kind == kind && old_hash == entry.hash {
                None
            } else if old_kind != kind {
                Some(
                    StateChangeJsonModel {
                        path: entry.path,
                        kind,
                        change: "kind-changed"@,
                        hash: Some(entry.hash),
                        previous_hash: Some(old_hash),
                        previous_kind: Some(old_kind),
                    },
                )
            } else {
                Some(
                    StateChangeJsonModel {
                        path: entry.path,
                        kind,
                        change: "modified"@,
                        hash: Some(entry.hash),
                        previous_hash: Some(old_hash),
                        previous_kind: None,
                    },
                )
            },
        }
    }
}

/// The removal of a recorded leaf: no leaf has its path any more, though a directory may.
pub open spec fn removal_of(item: RecordedModel, current: Seq<EntryModel>) -> Option<
    StateChangeJsonModel,
> {
    if item.1 == repo::kind_name(Kind::Dir) || has_leaf(current, item.0) {
        None
    } else {
        Some(
            StateChangeJsonModel {
                path: item.0,
                kind: item.1,
                change: "removed"@,
                hash: None,
                previous_hash: Some(item.2),
                previous_kind: None,
            },
        )
    }
}

/// The changes of the entries, in their order.
pub open spec fn present_changes(current: Seq<EntryModel>, recorded: Seq<RecordedModel>) -> Seq<
    StateChangeJsonModel,
>
    decreases current.len(),
{
    if current.len() == 0 {
        Seq::empty()
    } else {
        let head = present_changes(current.drop_last(), recorded);
        match change_of(current.last(), recorded) {
            Some(change) => head.push(change),
            None => head,
        }
    }
}

/// The removals of the recorded entries, in their order.
pub open spec fn removals(recorded: Seq<RecordedModel>, current: Seq<EntryModel>) -> Seq<
    StateChangeJsonModel,
>
    decreases recorded.len(),
{
    if recorded.len() == 0 {
        Seq::empty()
    } else {
        let head = removals(recorded.drop_last(), current);
        match removal_of(recorded.last(), current) {
            Some(change) => head.push(change),
            None => head,
        }
    }
}

/// The order of changes by path.
pub struct ByChangedPath {}

impl Order<StateChangeJson> for ByChangedPath {
    open spec fn le(&self, a: StateChangeJsonModel, b: StateChangeJsonModel) -> bool {
        order::text_le(a.path, b.path)
    }

    proof fn total(&self, a: StateChangeJsonModel, b: StateChangeJsonModel) {
        order::lemma_text_le_total(a.path, b.path);
    }

    proof fn transitive(
        &self,
        a: StateChangeJsonModel,
        b: StateChangeJsonModel,
        c: StateChangeJsonModel,
    ) {
        order::lemma_text_le_transitive(a.path, b.path, c.path);
    }

    fn before(&self, a: &StateChangeJson, b: &StateChangeJson) -> (r: bool) {
        order::text_before(a.path.as_str(), b.path.as_str())
    }
}

/// Entry-level differences between a tree and a recorded state, in path order.
pub open spec fn changes(current: Seq<EntryModel>, recorded: Seq<RecordedModel>) -> Seq<
    StateChangeJsonModel,
> {
    order::sorted::<StateChangeJson, ByChangedPath>(
        present_changes(current, recorded) + removals(recorded, current),
        ByChangedPath {  },
    )
}

/// Whether the map holds what was recorded last for each path.
spec fn indexes(map: Map<Seq<char>, (String, String)>, recorded: Seq<RecordedModel>) -> bool {
    forall|path: Seq<char>| #[trigger]
        recorded_at(recorded, path) == (if map.contains_key(path) {
            Some((map[path].0@, map[path].1@))
        } else {
            None
        })
}

fn index_recorded(recorded: &SnapshotEntries) -> (r: TextMap<(String, String)>)
    ensures
        r.wf(),
        indexes(r@, recorded.deep_view()),
{
    let ghost all = recorded.deep_view();
    let mut map: TextMap<(String, String)> = TextMap::new();
    let mut i: usize = 0;
    assert(all.take(0) =~= Seq::empty());
    while i < recorded.len()
        invariant
            i <= recorded@.len(),
            all == recorded.deep_view(),
            map.wf(),
            indexes(map@, all.take(i as int)),
        decreases recorded@.len() - i,
    {
        let ghost before = map@;
        let item = &recorded[i];
        proof {
            assert(all[i as int] == (item.0@, item.1@, item.2@));
            assert(all.take(i + 1).drop_last() =~= all.take(i as int));
            assert(all.take(i + 1).last() == all[i as int]);
        }
        map.insert(item.0.clone(), (item.1.clone(), item.2.clone()));
        proof {
            assert forall|path: Seq<char>| #[trigger]
                recorded_at(all.take(i + 1), path) == (if map@.contains_key(path) {
                    Some((map@[path].0@, map@[path].1@))
                } else {
                    None
                }) by {
                assert(recorded_at(all.take(i as int), path) == (if before.contains_key(path) {
                    Some((before[path].0@, before[path].1@))
                } else {
                    None
                }));
            }
        }
        i += 1;
    }
    assert(all.take(all.len() as int) =~= all);
    map
}

fn entry_change(entry: &Entry, previous: &TextMap<(String, String)>, recorded: Ghost<Seq<RecordedModel>>) -> (r: Option<
    StateChangeJson,
>)
    requires
        previous.wf(),
        indexes(previous@, recorded@),
    ensures
        r.deep_view() == change_of(entry.deep_view(), recorded@),
{
    if entry.kind == Kind::Dir {
        return None;
    }
    let kind = entry.kind.as_str();
    assert(recorded_at(recorded@, entry.path@) == (if previous@.contains_key(entry.path@) {
        Some((previous@[entry.path@].0@, previous@[entry.path@].1@))
    } else {
        None
    }));
    match previous.get(entry.path.as_str()) {
        None => Some(
            StateChangeJson {
                path: entry.path.clone(),
                kind: kind.to_owned(),
                change: "added".to_owned(),
                hash: Some(entry.hash.clone()),
                previous_hash: None,
                previous_kind: None,
            },
        ),
        Some(old) => {
            let same_kind = text::same(old.0.as_str(), kind);
            if same_kind && text::same(old.1.as_str(), entry.hash.as_str()) {
                None
            } else if !same_kind {
                Some(
                    StateChangeJson {
                        path: entry.path.clone(),
                        kind: kind.to_owned(),
                        change: "kind-changed".to_owned(),
                        hash: Some(entry.hash.clone()),
                        previous_hash: Some(old.1.clone()),
                        previous_kind: Some(old.0.clone()),
                    },
                )
            } else {
                Some(
                    StateChangeJson {
                        path: entry.path.clone(),
                        kind: kind.to_owned(),
                        change: "modified".to_owned(),
                        hash: Some(entry.hash.clone()),
                        previous_hash: Some(old.1.clone()),
                        previous_kind: None,
                    },
                )
            }
        },
    }
}

fn leaf_paths(entries: &Vec<Entry>) -> (r: TextSet)
    ensures
        r.wf(),
        forall|path: Seq<char>| #[trigger]
            r@.contains(path) <==> has_leaf(entries.deep_view(), path),
{
    let ghost all = entries.deep_view();
    let mut seen = TextSet::new();
    let mut i: usize = 0;
    while i < entries.len()
        invariant
            i <= entries@.len(),
            all == entries.deep_view(),
            seen.wf(),
            forall|path: Seq<char>| #[trigger]
                seen@.contains(path) <==> has_leaf(all.take(i as int), path),
        decreases entries@.len() - i,
    {
        let ghost before = seen@;
        if entries[i].kind != Kind::Dir {
            seen.insert(entries[i].path.clone());
        }
        proof {
            let now = all.take(i + 1);
            assert(now[i as int] == entries@[i as int].deep_view());
            assert forall|path: Seq<char>| #[trigger] seen@.contains(path) <==> has_leaf(
                now,
                path,
            ) by {
                assert(before.contains(path) <==> has_leaf(all.take(i as int), path));
                if before.contains(path) {
                    let k = choose|k: int|
                        0 <= k < i && (#[trigger] all.take(i as int)[k]).path == path && all.take(
                            i as int,
                        )[k].kind != Kind::Dir;
                    assert(now[k].path == path && now[k].kind != Kind::Dir);
                }
                if has_leaf(now, path) {
                    let k = choose|k: int|
                        0 <= k < now.len() && (#[trigger] now[k]).path == path && now[k].kind
                            != Kind::Dir;
                    if k < i {
                        assert(all.take(i as int)[k].path == path);
                    }
                }
            }
        }
        i += 1;
    }
    assert(all.take(all.len() as int) =~= all);
    seen
}

/// Entry-level differences between the current tree and one recorded state.
///
/// Directories are skipped: a directory hash is a function of its children's hashes, so a changed
/// directory is always accompanied by a changed leaf and would only add noise. Paths are compared,
/// not positions, so a rename is one removal plus one addition and never a rebinding. A leaf that
/// made way for a directory is removed like any other.
pub fn state_changes(current: &Vec<Entry>, recorded: &SnapshotEntries) -> (r: Vec<StateChangeJson>)
    ensures
        r.deep_view() == changes(current.deep_view(), recorded.deep_view()),
{
    let ghost tree = current.deep_view();
    let ghost rows = recorded.deep_view();
    let previous = index_recorded(recorded);
    let mut out: Vec<StateChangeJson> = Vec::new();
    let mut i: usize = 0;
    assert(out.deep_view() =~= present_changes(tree.take(0), rows));
    while i < current.len()
        invariant
            i <= current@.len(),
            tree == current.deep_view(),
            rows == recorded.deep_view(),
            previous.wf(),
            indexes(previous@, rows),
            out.deep_view() == present_changes(tree.take(i as int), rows),
        decreases current@.len() - i,
    {
        let ghost before = out.deep_view();
        proof {
            assert(tree[i as int] == current@[i as int].deep_view());
            assert(tree.take(i + 1).drop_last() =~= tree.take(i as int));
            assert(tree.take(i + 1).last() == tree[i as int]);
        }
        if let Some(change) = entry_change(&current[i], &previous, Ghost(rows)) {
            let ghost model = change.deep_view();
            out.push(change);
            assert(out.deep_view() =~= before.push(model));
        }
        i += 1;
    }
    assert(tree.take(tree.len() as int) =~= tree);
    let ghost present = out.deep_view();
    let seen = leaf_paths(current);
    let mut j: usize = 0;
    assert(out.deep_view() =~= present + removals(rows.take(0), tree));
    while j < recorded.len()
        invariant
            j <= recorded@.len(),
            tree == current.deep_view(),
            rows == recorded.deep_view(),
            seen.wf(),
            forall|path: Seq<char>| #[trigger] seen@.contains(path) <==> has_leaf(tree, path),
            out.deep_view() == present + removals(rows.take(j as int), tree),
        decreases recorded@.len() - j,
    {
        let ghost before = out.deep_view();
        let item = &recorded[j];
        proof {
            assert(rows[j as int] == (item.0@, item.1@, item.2@));
            assert(rows.take(j + 1).drop_last() =~= rows.take(j as int));
            assert(rows.take(j + 1).last() == rows[j as int]);
        }
        if !text::same(item.1.as_str(), Kind::Dir.as_str()) && !seen.contains(item.0.as_str()) {
            let change = StateChangeJson {
                path: item.0.clone(),
                kind: item.1.clone(),
                change: "removed".to_owned(),
                hash: None,
                previous_hash: Some(item.2.clone()),
                previous_kind: None,
            };
            let ghost model = change.deep_view();
            assert(removal_of(rows[j as int], tree) == Some(model));
            out.push(change);
            assert(out.deep_view() =~= before.push(model));
            assert(out.deep_view() =~= present + removals(rows.take(j + 1), tree));
        } else {
            assert(removal_of(rows[j as int], tree) is None);
        }
        j += 1;
    }
    assert(rows.take(rows.len() as int) =~= rows);
    order::sort(out, &ByChangedPath {  })
}

// ---------------------------------------------------------------------------------------------
// Laws of changes
// ---------------------------------------------------------------------------------------------

proof fn lemma_present_change(
    current: Seq<EntryModel>,
    recorded: Seq<RecordedModel>,
    change: StateChangeJsonModel,
)
    ensures
        present_changes(current, recorded).contains(change) <==> exists|k: int|
            0 <= k < current.len() && change_of(#[trigger] current[k], recorded) == Some(change),
    decreases current.len(),
{
    if current.len() > 0 {
        let head = present_changes(current.drop_last(), recorded);
        let all = present_changes(current, recorded);
        lemma_present_change(current.drop_last(), recorded, change);
        if head.contains(change) {
            let k = choose|k: int|
                0 <= k < current.drop_last().len() && change_of(
                    #[trigger] current.drop_last()[k],
                    recorded,
                ) == Some(change);
            assert(current[k] == current.drop_last()[k]);
        }
        if exists|k: int|
            0 <= k < current.len() && change_of(#[trigger] current[k], recorded) == Some(change) {
            let k = choose|k: int|
                0 <= k < current.len() && change_of(#[trigger] current[k], recorded) == Some(
                    change,
                );
            if k < current.len() - 1 {
                assert(current.drop_last()[k] == current[k]);
                assert(head.contains(change));
                let i = head.index_of(change);
                assert(all[i] == change);
            } else {
                assert(all.last() == change);
            }
        }
        if all.contains(change) {
            let i = all.index_of(change);
            if i < head.len() {
                assert(head[i] == change);
            } else {
                assert(change_of(current[current.len() - 1], recorded) == Some(change));
            }
        }
    }
}

proof fn lemma_removal(
    recorded: Seq<RecordedModel>,
    current: Seq<EntryModel>,
    change: StateChangeJsonModel,
)
    ensures
        removals(recorded, current).contains(change) <==> exists|k: int|
            0 <= k < recorded.len() && removal_of(#[trigger] recorded[k], current) == Some(change),
    decreases recorded.len(),
{
    if recorded.len() > 0 {
        let head = removals(recorded.drop_last(), current);
        let all = removals(recorded, current);
        lemma_removal(recorded.drop_last(), current, change);
        if head.contains(change) {
            let k = choose|k: int|
                0 <= k < recorded.drop_last().len() && removal_of(
                    #[trigger] recorded.drop_last()[k],
                    current,
                ) == Some(change);
            assert(recorded[k] == recorded.drop_last()[k]);
        }
        if exists|k: int|
            0 <= k < recorded.len() && removal_of(#[trigger] recorded[k], current) == Some(
                change,
            ) {
            let k = choose|k: int|
                0 <= k < recorded.len() && removal_of(#[trigger] recorded[k], current) == Some(
                    change,
                );
            if k < recorded.len() - 1 {
                assert(recorded.drop_last()[k] == recorded[k]);
                assert(head.contains(change));
                let i = head.index_of(change);
                assert(all[i] == change);
            } else {
                assert(all.last() == change);
            }
        }
        if all.contains(change) {
            let i = all.index_of(change);
            if i < head.len() {
                assert(head[i] == change);
            } else {
                assert(removal_of(recorded[recorded.len() - 1], current) == Some(change));
            }
        }
    }
}

/// A report of changes names exactly the entries that differ and the recorded leaves that are
/// gone, in path order, and never a directory.
pub proof fn law_changes(
    current: Seq<EntryModel>,
    recorded: Seq<RecordedModel>,
    change: StateChangeJsonModel,
)
    ensures
        order::in_order::<StateChangeJson, ByChangedPath>(
            changes(current, recorded),
            ByChangedPath {  },
        ),
        changes(current, recorded).contains(change) <==> (exists|k: int|
            0 <= k < current.len() && change_of(#[trigger] current[k], recorded) == Some(change))
            || (exists|k: int|
            0 <= k < recorded.len() && removal_of(#[trigger] recorded[k], current) == Some(change)),
        changes(current, recorded).contains(change) ==> change.kind != repo::kind_name(Kind::Dir),
{
    broadcast use vstd::seq_lib::group_to_multiset_ensures;

    let a = present_changes(current, recorded);
    let b = removals(recorded, current);
    order::lemma_sorted::<StateChangeJson, ByChangedPath>(a + b, ByChangedPath {  });
    lemma_present_change(current, recorded, change);
    lemma_removal(recorded, current, change);
    let all = changes(current, recorded);
    assert(all.contains(change) <==> (a + b).contains(change)) by {
        assert(all.to_multiset().count(change) == (a + b).to_multiset().count(change));
    }
    assert((a + b).contains(change) <==> a.contains(change) || b.contains(change)) by {
        if (a + b).contains(change) {
            let i = (a + b).index_of(change);
            if i < a.len() {
                assert(a[i] == change);
            } else {
                assert(b[i - a.len()] == change);
            }
        }
        if a.contains(change) {
            assert((a + b)[a.index_of(change)] == change);
        }
        if b.contains(change) {
            assert((a + b)[a.len() + b.index_of(change)] == change);
        }
    }
    if a.contains(change) {
        let k = choose|k: int|
            0 <= k < current.len() && change_of(#[trigger] current[k], recorded) == Some(change);
        repo::law_kinds_distinct(current[k].kind, Kind::Dir);
    }
}

/// What is recorded of an entry.
pub open spec fn recorded_of(entry: EntryModel) -> RecordedModel {
    (entry.path, repo::kind_name(entry.kind), entry.hash)
}

proof fn lemma_recorded_at(entries: Seq<EntryModel>, k: int)
    requires
        repo::distinct_paths(entries),
        0 <= k < entries.len(),
    ensures
        recorded_at(entries.map_values(|e: EntryModel| recorded_of(e)), entries[k].path) == Some(
            (repo::kind_name(entries[k].kind), entries[k].hash),
        ),
    decreases entries.len(),
{
    let rows = entries.map_values(|e: EntryModel| recorded_of(e));
    let last = entries.len() - 1;
    assert(rows.last() == recorded_of(entries[last]));
    if k < last {
        assert(entries[k].path != entries[last].path);
        let head = entries.drop_last();
        assert(repo::distinct_paths(head)) by {
            assert forall|i: int, j: int| 0 <= i < j < head.len() implies (#[trigger] head[i]).path
                != (#[trigger] head[j]).path by {
                assert(entries[i].path != entries[j].path);
            }
        }
        lemma_recorded_at(head, k);
        assert(rows.drop_last() =~= head.map_values(|e: EntryModel| recorded_of(e)));
    }
}

/// A tree compared with its own record has no changes.
pub proof fn law_unchanged_state(entries: Seq<EntryModel>)
    requires
        repo::distinct_paths(entries),
    ensures
        changes(entries, entries.map_values(|e: EntryModel| recorded_of(e))).len() == 0,
{
    let rows = entries.map_values(|e: EntryModel| recorded_of(e));
    let all = changes(entries, rows);
    if all.len() > 0 {
        let change = all[0];
        law_changes(entries, rows, change);
        assert(all.contains(change));
        if exists|k: int|
            0 <= k < entries.len() && change_of(#[trigger] entries[k], rows) == Some(change) {
            let k = choose|k: int|
                0 <= k < entries.len() && change_of(#[trigger] entries[k], rows) == Some(change);
            lemma_recorded_at(entries, k);
        } else {
            let k = choose|k: int|
                0 <= k < rows.len() && removal_of(#[trigger] rows[k], entries) == Some(change);
            assert(rows[k] == recorded_of(entries[k]));
            assert(has_leaf(entries, rows[k].0));
        }
    }
}

/// What was recorded last for a path is among what was recorded.
proof fn lemma_recorded_at_holds(recorded: Seq<RecordedModel>, path: Seq<char>)
    ensures
        match recorded_at(recorded, path) {
            Some((kind, hash)) => recorded.contains((path, kind, hash)),
            None => forall|k: int| 0 <= k < recorded.len() ==> (#[trigger] recorded[k]).0 != path,
        },
    decreases recorded.len(),
{
    if recorded.len() > 0 {
        let head = recorded.drop_last();
        assert(recorded[recorded.len() - 1] == recorded.last());
        if recorded.last().0 != path {
            lemma_recorded_at_holds(head, path);
            match recorded_at(head, path) {
                Some((kind, hash)) => {
                    assert(recorded[head.index_of((path, kind, hash))] == (path, kind, hash));
                },
                None => {
                    assert forall|k: int| 0 <= k < recorded.len() implies (
                    #[trigger] recorded[k]).0 != path by {
                        if k < head.len() {
                            assert(head[k] == recorded[k]);
                        }
                    }
                },
            }
        } else {
            assert(recorded.last() == (path, recorded.last().1, recorded.last().2));
        }
    }
}

/// In which order the entries of a recorded state are read does not matter for the changes, as
/// long as no two of them share a path.
pub proof fn law_changes_order_free(
    current: Seq<EntryModel>,
    recorded: Seq<RecordedModel>,
    read: Seq<RecordedModel>,
    change: StateChangeJsonModel,
)
    requires
        forall|i: int, j: int|
            0 <= i < j < recorded.len() ==> (#[trigger] recorded[i]).0 != (#[trigger] recorded[j]).0,
        read.to_multiset() == recorded.to_multiset(),
    ensures
        changes(current, read).contains(change) <==> changes(current, recorded).contains(change),
{
    assert forall|item: RecordedModel| #[trigger] read.contains(item) <==> recorded.contains(
        item,
    ) by {
        vstd::seq_lib::to_multiset_contains(read, item);
        vstd::seq_lib::to_multiset_contains(recorded, item);
    }
    assert forall|path: Seq<char>| #[trigger] recorded_at(read, path) == recorded_at(
        recorded,
        path,
    ) by {
        lemma_recorded_at_holds(read, path);
        lemma_recorded_at_holds(recorded, path);
        if let Some((kind, hash)) = recorded_at(read, path) {
            assert(read.contains((path, kind, hash)));
            let k = recorded.index_of((path, kind, hash));
            assert(recorded[k].0 == path);
            let (other_kind, other_hash) = recorded_at(recorded, path)->0;
            let m = recorded.index_of((path, other_kind, other_hash));
            assert(recorded[m].0 == path);
            if k < m {
                assert(recorded[k].0 != recorded[m].0);
            } else if m < k {
                assert(recorded[m].0 != recorded[k].0);
            }
        } else if let Some((kind, hash)) = recorded_at(recorded, path) {
            assert(recorded.contains((path, kind, hash)));
            assert(read.contains((path, kind, hash)));
            assert(read[read.index_of((path, kind, hash))].0 == path);
        }
    }
    law_changes(current, recorded, change);
    law_changes(current, read, change);
    assert forall|k: int| 0 <= k < current.len() implies change_of(#[trigger] current[k], read)
        == change_of(current[k], recorded) by {
        assert(recorded_at(read, current[k].path) == recorded_at(recorded, current[k].path));
    }
    if exists|k: int| 0 <= k < read.len() && removal_of(#[trigger] read[k], current) == Some(change) {
        let k = choose|k: int|
            0 <= k < read.len() && removal_of(#[trigger] read[k], current) == Some(change);
        assert(read.contains(read[k]));
        let m = recorded.index_of(read[k]);
        assert(removal_of(recorded[m], current) == Some(change));
    }
    if exists|k: int|
        0 <= k < recorded.len() && removal_of(#[trigger] recorded[k], current) == Some(change) {
        let k = choose|k: int|
            0 <= k < recorded.len() && removal_of(#[trigger] recorded[k], current) == Some(change);
        assert(recorded.contains(recorded[k]));
        assert(read.contains(recorded[k]));
        let m = read.index_of(recorded[k]);
        assert(removal_of(read[m], current) == Some(change));
    }
}

/// A report without changes means that every leaf of the tree is recorded with the same kind and
/// content, and that every recorded leaf still has the path of a leaf.
pub proof fn law_no_changes_means_same_leaves(
    current: Seq<EntryModel>,
    recorded: Seq<RecordedModel>,
)
    requires
        changes(current, recorded).len() == 0,
    ensures
        forall|k: int|
            0 <= k < current.len() && (#[trigger] current[k]).kind != Kind::Dir ==> recorded_at(
                recorded,
                current[k].path,
            ) == Some((repo::kind_name(current[k].kind), current[k].hash)),
        forall|k: int|
            0 <= k < recorded.len() && (#[trigger] recorded[k]).1 != repo::kind_name(Kind::Dir)
                ==> has_leaf(current, recorded[k].0),
{
    assert forall|k: int|
        0 <= k < current.len() && (#[trigger] current[k]).kind != Kind::Dir implies recorded_at(
        recorded,
        current[k].path,
    ) == Some((repo::kind_name(current[k].kind), current[k].hash)) by {
        if change_of(current[k], recorded) is Some {
            law_changes(current, recorded, change_of(current[k], recorded)->0);
        }
    }
    assert forall|k: int|
        0 <= k < recorded.len() && (#[trigger] recorded[k]).1 != repo::kind_name(
            Kind::Dir,
        ) implies has_leaf(current, recorded[k].0) by {
        if removal_of(recorded[k], current) is Some {
            law_changes(current, recorded, removal_of(recorded[k], current)->0);
        }
    }
}

// ---------------------------------------------------------------------------------------------
// The member cache
// ---------------------------------------------------------------------------------------------

/// Whether the members of an entry are listed from its source.
pub open spec fn is_source(entry: EntryModel) -> bool {
    entry.kind == Kind::File && ast::language_of(entry.path) is Some
}

/// Number of source files whose members are cached for their current content, when `cached` is
/// true; number of the others, when it is false.
pub open spec fn cache_count(
    entries: Seq<EntryModel>,
    keys: Seq<(Seq<char>, Seq<char>)>,
    cached: bool,
) -> nat
    decreases entries.len(),
{
    if entries.len() == 0 {
        0
    } else {
        let entry = entries.last();
        cache_count(entries.drop_last(), keys, cached) + (if is_source(entry) && keys.contains(
            (entry.path, entry.hash),
        ) == cached {
            1nat
        } else {
            0nat
        })
    }
}

/// Whether the map groups the keys by path.
spec fn groups_keys(
    map: Map<Seq<char>, Vec<String>>,
    keys: Seq<(Seq<char>, Seq<char>)>,
) -> bool {
    forall|path: Seq<char>, hash: Seq<char>| #[trigger]
        keys.contains((path, hash)) <==> exists|k: int|
            0 <= k < maps::items_of(map, path).len() && (#[trigger] maps::items_of(map, path)[k])@
                == hash
}

fn group_keys(keys: &Vec<(String, String)>) -> (r: TextMap<Vec<String>>)
    ensures
        r.wf(),
        groups_keys(r@, keys.deep_view()),
{
    let ghost all = keys.deep_view();
    let mut map: TextMap<Vec<String>> = TextMap::new();
    let mut i: usize = 0;
    assert(groups_keys(map@, all.take(0)));
    while i < keys.len()
        invariant
            i <= keys@.len(),
            all == keys.deep_view(),
            map.wf(),
            groups_keys(map@, all.take(i as int)),
        decreases keys@.len() - i,
    {
        let ghost before = map@;
        let key = &keys[i];
        let ghost p = key.0@;
        let ghost h = key.1@;
        map.push(key.0.clone(), key.1.clone());
        proof {
            let then = all.take(i as int);
            let now = all.take(i + 1);
            assert(all[i as int] == (p, h));
            assert(now =~= then.push((p, h)));
            assert forall|path: Seq<char>, hash: Seq<char>| #[trigger]
                now.contains((path, hash)) <==> exists|k: int|
                    0 <= k < maps::items_of(map@, path).len() && (
                    #[trigger] maps::items_of(map@, path)[k])@ == hash by {
                let old_items = maps::items_of(before, path);
                let items = maps::items_of(map@, path);
                assert(now.contains((path, hash)) <==> then.contains((path, hash)) || (path, hash)
                    == (p, h)) by {
                    if then.contains((path, hash)) {
                        assert(now[then.index_of((path, hash))] == (path, hash));
                    }
                    assert(now[i as int] == (p, h));
                    if now.contains((path, hash)) {
                        let k = now.index_of((path, hash));
                        if k < i {
                            assert(then[k] == (path, hash));
                        }
                    }
                }
                if path == p {
                    assert(items.len() == old_items.len() + 1);
                    assert(items.last()@ == h);
                    if then.contains((path, hash)) {
                        let k = choose|k: int|
                            0 <= k < old_items.len() && (#[trigger] old_items[k])@ == hash;
                        assert(items[k] == old_items[k]);
                    }
                    if hash == h {
                        assert(items[items.len() - 1]@ == hash);
                    }
                    if exists|k: int| 0 <= k < items.len() && (#[trigger] items[k])@ == hash {
                        let k = choose|k: int|
                            0 <= k < items.len() && (#[trigger] items[k])@ == hash;
                        if k < old_items.len() {
                            assert(old_items[k] == items[k]);
                            assert(then.contains((path, hash)));
                        }
                    }
                } else {
                    assert(items == old_items);
                }
            }
        }
        i += 1;
    }
    assert(all.take(all.len() as int) =~= all);
    map
}

fn is_cached(
    map: &TextMap<Vec<String>>,
    path: &str,
    hash: &str,
    keys: Ghost<Seq<(Seq<char>, Seq<char>)>>,
) -> (r: bool)
    requires
        map.wf(),
        groups_keys(map@, keys@),
    ensures
        r == keys@.contains((path@, hash@)),
{
    assert(keys@.contains((path@, hash@)) <==> exists|k: int|
        0 <= k < maps::items_of(map@, path@).len() && (#[trigger] maps::items_of(map@, path@)[k])@
            == hash@);
    match map.get(path) {
        None => false,
        Some(hashes) => {
            let mut i: usize = 0;
            while i < hashes.len()
                invariant
                    i <= hashes@.len(),
                    hashes@ == maps::items_of(map@, path@),
                    keys@.contains((path@, hash@)) <==> exists|k: int|
                        0 <= k < hashes@.len() && (#[trigger] hashes@[k])@ == hash@,
                    forall|k: int| 0 <= k < i ==> (#[trigger] hashes@[k])@ != hash@,
                decreases hashes@.len() - i,
            {
                if text::same(hashes[i].as_str(), hash) {
                    assert(hashes@[i as int]@ == hash@);
                    return true;
                }
                i += 1;
            }
            false
        },
    }
}

/// Number of source files whose members are cached for their current content, and number of those
/// whose members would have to be parsed again.
pub fn cache_counts(entries: &Vec<Entry>, keys: &Vec<(String, String)>) -> (r: (usize, usize))
    ensures
        r.0 == cache_count(entries.deep_view(), keys.deep_view(), true),
        r.1 == cache_count(entries.deep_view(), keys.deep_view(), false),
        r.0 + r.1 <= entries@.len(),
{
    let ghost all = entries.deep_view();
    let ghost cached = keys.deep_view();
    let map = group_keys(keys);
    let count: usize = entries.len();
    let mut hits: usize = 0;
    let mut misses: usize = 0;
    let mut i: usize = 0;
    while i < count
        invariant
            i <= count == entries@.len(),
            all == entries.deep_view(),
            cached == keys.deep_view(),
            map.wf(),
            groups_keys(map@, cached),
            hits == cache_count(all.take(i as int), cached, true),
            misses == cache_count(all.take(i as int), cached, false),
            hits + misses <= i,
        decreases count - i,
    {
        let entry = &entries[i];
        proof {
            assert(all[i as int] == entry.deep_view());
            assert(all.take(i + 1).drop_last() =~= all.take(i as int));
            assert(all.take(i + 1).last() == all[i as int]);
        }
        if entry.kind == Kind::File && ast::language_for_path(entry.path.as_str()).is_some() {
            if is_cached(&map, entry.path.as_str(), entry.hash.as_str(), Ghost(cached)) {
                hits += 1;
            } else {
                misses += 1;
            }
        }
        i += 1;
    }
    assert(all.take(all.len() as int) =~= all);
    (hits, misses)
}

// ---------------------------------------------------------------------------------------------
// The report
// ---------------------------------------------------------------------------------------------

/// The complaint about a state that was never recorded.
pub open spec fn unknown_state(state: Seq<char>) -> CmdErrorModel {
    crate::usage_error(
        "state "@ + state
            + " has never been recorded by this database; run `treenotes state` on the checkout you want to compare with"@,
    )
}

/// A state that was asked for must have been recorded; without one, there may be none to compare
/// with.
pub fn check_compared(compare: &Option<String>, found: bool) -> (r: Result<(), CmdError>)
    ensures
        match r {
            Ok(_) => compare is None || found,
            Err(error) => compare matches Some(state) && !found && error.deep_view()
                == unknown_state(state@),
        },
{
    match compare {
        Some(state) => if found {
            Ok(())
        } else {
            let mut message = "state ".to_owned();
            message.append(state.as_str());
            message.append(
                " has never been recorded by this database; run `treenotes state` on the checkout you want to compare with",
            );
            Err(CmdError::usage(message.as_str()))
        },
        None => Ok(()),
    }
}

/// A recorded state to compare with.
#[derive(Debug)]
pub struct ComparedState {
    /// What is known of the state.
    pub info: SnapshotInfo,
    /// The entries of the state.
    pub entries: SnapshotEntries,
}

/// Model of a [`ComparedState`].
#[verifier::ext_equal]
pub struct ComparedStateModel {
    pub info: SnapshotModel,
    pub entries: Seq<RecordedModel>,
}

impl DeepView for ComparedState {
    type V = ComparedStateModel;

    open spec fn deep_view(&self) -> ComparedStateModel {
        ComparedStateModel { info: self.info.deep_view(), entries: self.entries.deep_view() }
    }
}

/// JSON form of the state that was compared with.
pub open spec fn compared_json(info: SnapshotModel) -> ComparedStateJsonModel {
    ComparedStateJsonModel {
        state_hash: info.state_hash,
        commit: info.commit,
        updated_at: info.updated_at,
    }
}

/// What is reported of a state. A state that was not known is the one that gets recorded.
pub open spec fn report(
    entries: Seq<EntryModel>,
    commit: Option<Seq<char>>,
    known: bool,
    keys: Seq<(Seq<char>, Seq<char>)>,
    compared: Option<ComparedStateModel>,
) -> StateJsonModel {
    StateJsonModel {
        state_hash: repo::state_text(entries),
        commit,
        known,
        recorded: !known,
        member_cache_hits: cache_count(entries, keys, true) as usize,
        member_cache_misses: cache_count(entries, keys, false) as usize,
        compared_state: match compared {
            Some(state) => Some(compared_json(state.info)),
            None => None,
        },
        changes: match compared {
            Some(state) => changes(entries, state.entries),
            None => Seq::empty(),
        },
    }
}

/// Report the aggregate hash of the current tree state, whether it was already recorded, how much
/// of the AST member cache survives, and what changed since a recorded state.
///
/// The state hash is a pure function of the inventory, so an unchanged checkout always reports the
/// same hash — including on another worktree or after a branch switch that lands on identical
/// bytes.
pub fn state_report(
    entries: &Vec<Entry>,
    commit: Option<String>,
    known: bool,
    keys: &Vec<(String, String)>,
    compared: &Option<ComparedState>,
) -> (r: StateJson)
    ensures
        r.deep_view() == report(
            entries.deep_view(),
            commit.deep_view(),
            known,
            keys.deep_view(),
            compared.deep_view(),
        ),
        r.member_cache_hits + r.member_cache_misses <= usize::MAX,
{
    let (member_cache_hits, member_cache_misses) = cache_counts(entries, keys);
    let compared_state = match compared {
        Some(state) => Some(
            ComparedStateJson {
                state_hash: state.info.state_hash.clone(),
                commit: state.info.commit.clone(),
                updated_at: state.info.updated_at.clone(),
            },
        ),
        None => None,
    };
    let found = match compared {
        Some(state) => state_changes(entries, &state.entries),
        None => Vec::new(),
    };
    assert(compared is None ==> found.deep_view() =~= Seq::<StateChangeJsonModel>::empty());
    let count: usize = entries.len();
    assert(member_cache_hits + member_cache_misses <= count);
    StateJson {
        state_hash: repo::state_hash(entries.as_slice()),
        commit,
        known,
        recorded: !known,
        member_cache_hits,
        member_cache_misses,
        compared_state,
        changes: found,
    }
}

/// The envelope of `state`.
pub fn state_envelope(repository: RepoJson, state: StateJson) -> (r: Envelope)
    ensures
        r.deep_view() == (EnvelopeModel {
            state: Some(state.deep_view()),
            ..output::bare_envelope("state"@, repository.deep_view())
        }),
{
    let mut envelope = Envelope::new("state", repository);
    envelope.state = Some(state);
    envelope
}

/// The line about the current state.
pub open spec fn state_line(state: StateJsonModel) -> Seq<char> {
    "state "@ + output::short(state.state_hash) + " ["@ + (if state.known {
        "known"@
    } else {
        "new"@
    }) + "] "@ + (match state.commit {
        Some(commit) => "commit "@ + output::short(commit),
        None => "no commit yet"@,
    })
}

/// The line about the member cache.
pub open spec fn cache_line(hits: nat, misses: nat) -> Seq<char> {
    "member cache "@ + text::decimal(hits) + "/"@ + text::decimal(hits + misses)
        + " source file(s) parsed"@
}

/// The line about the comparison.
pub open spec fn compared_line(state_hash: Seq<char>, count: nat) -> Seq<char> {
    "compared with "@ + output::short(state_hash) + " ("@ + text::decimal(count) + " change(s))"@
}

/// The line about a change.
pub open spec fn change_line(change: StateChangeJsonModel) -> Seq<char> {
    let line = "  "@ + change.path + " ["@ + change.kind + "] "@ + change.change;
    match change.hash {
        Some(hash) => line + " "@ + output::short(hash),
        None => line,
    }
}

/// The lines that `state` prints.
pub open spec fn state_text(state: StateJsonModel) -> Seq<Seq<char>> {
    let head = seq![
        state_line(state),
        cache_line(state.member_cache_hits as nat, state.member_cache_misses as nat),
    ];
    match state.compared_state {
        Some(compared) => head.push(compared_line(compared.state_hash, state.changes.len()))
            + state.changes.map_values(|change: StateChangeJsonModel| change_line(change)),
        None => head.push("no earlier recorded state to compare with"@),
    }
}

fn change_text(change: &StateChangeJson) -> (r: String)
    ensures
        r@ == change_line(change.deep_view()),
{
    let mut line = "  ".to_owned();
    line.append(change.path.as_str());
    line.append(" [");
    line.append(change.kind.as_str());
    line.append("] ");
    line.append(change.change.as_str());
    if let Some(hash) = &change.hash {
        line.append(" ");
        line.append(output::short_hash(hash.as_str()).as_str());
    }
    line
}

fn state_head(state: &StateJson) -> (r: Vec<String>)
    requires
        state.member_cache_hits + state.member_cache_misses <= usize::MAX,
    ensures
        r.deep_view() == seq![
            state_line(state.deep_view()),
            cache_line(state.member_cache_hits as nat, state.member_cache_misses as nat),
        ],
{
    let mut first = "state ".to_owned();
    first.append(output::short_hash(state.state_hash.as_str()).as_str());
    first.append(" [");
    if state.known {
        first.append("known");
    } else {
        first.append("new");
    }
    first.append("] ");
    match &state.commit {
        Some(commit) => {
            let mut tail = "commit ".to_owned();
            tail.append(output::short_hash(commit.as_str()).as_str());
            first.append(tail.as_str());
        },
        None => {
            first.append("no commit yet");
        },
    }
    let mut second = "member cache ".to_owned();
    second.append(text::decimal_text(state.member_cache_hits as u64).as_str());
    second.append("/");
    let total: usize = state.member_cache_hits + state.member_cache_misses;
    second.append(text::decimal_text(total as u64).as_str());
    second.append(" source file(s) parsed");
    let ghost lines = seq![first@, second@];
    let out = vec![first, second];
    assert(out.deep_view() =~= lines);
    out
}

/// The lines that `state` prints.
pub fn state_lines(state: &StateJson) -> (r: Vec<String>)
    requires
        state.member_cache_hits + state.member_cache_misses <= usize::MAX,
    ensures
        r.deep_view() == state_text(state.deep_view()),
{
    let ghost model = state.deep_view();
    let mut out = state_head(state);
    let ghost head = out.deep_view();
    match &state.compared_state {
        None => {
            let line = "no earlier recorded state to compare with".to_owned();
            let ghost last = line@;
            out.push(line);
            assert(out.deep_view() =~= head.push(last));
        },
        Some(compared) => {
            assert(model.changes.len() == state.changes@.len());
            let mut line = "compared with ".to_owned();
            line.append(output::short_hash(compared.state_hash.as_str()).as_str());
            line.append(" (");
            line.append(text::decimal_text(state.changes.len() as u64).as_str());
            line.append(" change(s))");
            let ghost last = line@;
            out.push(line);
            let ghost start = head.push(last);
            assert(out.deep_view() =~= start);
            let ghost all = model.changes.map_values(
                |change: StateChangeJsonModel| change_line(change),
            );
            let mut i: usize = 0;
            assert(out.deep_view() =~= start + all.take(0));
            while i < state.changes.len()
                invariant
                    i <= state.changes@.len(),
                    model == state.deep_view(),
                    all == model.changes.map_values(
                        |change: StateChangeJsonModel| change_line(change),
                    ),
                    out.deep_view() == start + all.take(i as int),
                decreases state.changes@.len() - i,
            {
                let ghost before = out.deep_view();
                assert(model.changes[i as int] == state.changes@[i as int].deep_view());
                let next = change_text(&state.changes[i]);
                let ghost next_model = next@;
                out.push(next);
                assert(out.deep_view() =~= before.push(next_model));
                assert(out.deep_view() =~= start + all.take(i + 1));
                i += 1;
            }
            assert(all.take(all.len() as int) =~= all);
        },
    }
    out
}

} // verus!
