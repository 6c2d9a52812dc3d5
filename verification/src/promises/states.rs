//! What a report about the state of the tree says.
use super::listings;
use crate::ast;
use crate::order;
use crate::output::{StateChangeJson, StateChangeJsonModel};
use crate::repo;
use crate::repo::{EntryModel, Kind};
use crate::state;
use crate::state::{ByChangedPath, ComparedStateModel, RecordedModel};
use vstd::prelude::*;

verus! {

// ---------------------------------------------------------------------------------------------
// Changes
// ---------------------------------------------------------------------------------------------

/// Whether the tree has a leaf with this path, kind and content.
pub open spec fn has_leaf_with(
    current: Seq<EntryModel>,
    path: Seq<char>,
    kind: Seq<char>,
    hash: Seq<char>,
) -> bool {
    exists|k: int|
        0 <= k < current.len() && (#[trigger] current[k]).path == path && current[k].hash == hash
            && current[k].kind != Kind::Dir && listings::is_kind_word(kind, current[k].kind)
}

/// Whether no leaf of the tree has this path.
pub open spec fn has_no_leaf(current: Seq<EntryModel>, path: Seq<char>) -> bool {
    forall|k: int|
        0 <= k < current.len() ==> (#[trigger] current[k]).path != path || current[k].kind
            == Kind::Dir
}

/// Whether nothing was recorded for this path.
pub open spec fn is_unrecorded(recorded: Seq<RecordedModel>, path: Seq<char>) -> bool {
    forall|k: int| 0 <= k < recorded.len() ==> (#[trigger] recorded[k]).0 != path
}

/// Whether a path was recorded once at most.
pub open spec fn once_each(recorded: Seq<RecordedModel>) -> bool {
    forall|i: int, j: int|
        0 <= i < j < recorded.len() ==> (#[trigger] recorded[i]).0 != (#[trigger] recorded[j]).0
}

proof fn lemma_recorded_at(recorded: Seq<RecordedModel>, path: Seq<char>)
    ensures
        match state::recorded_at(recorded, path) {
            Some((kind, hash)) => recorded.contains((path, kind, hash)),
            None => is_unrecorded(recorded, path),
        },
    decreases recorded.len(),
{
    if recorded.len() > 0 {
        let head = recorded.drop_last();
        lemma_recorded_at(head, path);
        if recorded.last().0 == path {
            assert(recorded[recorded.len() - 1] == (path, recorded.last().1, recorded.last().2));
        } else {
            match state::recorded_at(head, path) {
                Some((kind, hash)) => {
                    assert(recorded[head.index_of((path, kind, hash))] == (path, kind, hash));
                },
                None => {
                    assert forall|k: int| 0 <= k < recorded.len() implies (
                    #[trigger] recorded[k]).0 != path by {
                        if k < head.len() {
                            assert(head[k] == recorded[k]);
                        }
                    }
                },
            }
        }
    }
}

/// What a reported change says is so. The hash it gives is that of a leaf of the tree with its path
/// and kind, and the previous hash is one that was recorded for its path. What is added was not
/// recorded; what is removed is no leaf any more and was recorded with that kind; what is modified
/// has other content under the same kind; and a changed kind is not the kind that was recorded.
pub proof fn law_reported_changes_are_so(
    current: Seq<EntryModel>,
    recorded: Seq<RecordedModel>,
    change: StateChangeJsonModel,
)
    requires
        state::changes(current, recorded).contains(change),
    ensures
        change.hash matches Some(hash) ==> has_leaf_with(
            current,
            change.path,
            change.kind,
            hash,
        ),
        change.previous_hash matches Some(hash) ==> exists|kind: Seq<char>| #[trigger]
            recorded.contains((change.path, kind, hash)),
        change.kind != "dir"@,
        change.change == "added"@ || change.change == "modified"@ || change.change
            == "kind-changed"@ || change.change == "removed"@,
        change.change == "added"@ ==> change.hash is Some && change.previous_hash is None
            && change.previous_kind is None && is_unrecorded(recorded, change.path),
        change.change == "removed"@ ==> change.hash is None && change.previous_hash is Some
            && change.previous_kind is None && has_no_leaf(current, change.path)
            && recorded.contains((change.path, change.kind, change.previous_hash->0)),
        change.change == "modified"@ ==> change.hash is Some && change.previous_hash is Some
            && change.previous_kind is None && change.hash != change.previous_hash
            && recorded.contains((change.path, change.kind, change.previous_hash->0)),
        change.change == "kind-changed"@ ==> change.hash is Some && change.previous_hash is Some
            && change.previous_kind is Some && change.previous_kind->0 != change.kind
            && recorded.contains((change.path, change.previous_kind->0, change.previous_hash->0)),
{
    lemma_words();
    state::law_changes(current, recorded, change);
    if exists|k: int|
        0 <= k < current.len() && state::change_of(#[trigger] current[k], recorded) == Some(
            change,
        ) {
        let k = choose|k: int|
            0 <= k < current.len() && state::change_of(#[trigger] current[k], recorded) == Some(
                change,
            );
        lemma_recorded_at(recorded, current[k].path);
        assert(current[k].path == change.path);
        assert(listings::is_kind_word(change.kind, current[k].kind));
        repo::law_kinds_distinct(current[k].kind, Kind::Dir);
        if state::recorded_at(recorded, current[k].path) is Some {
            let (kind, hash) = state::recorded_at(recorded, current[k].path)->0;
            assert(recorded.contains((change.path, kind, hash)));
        }
    } else {
        let k = choose|k: int|
            0 <= k < recorded.len() && state::removal_of(#[trigger] recorded[k], current)
                == Some(change);
        assert(recorded[k] == (change.path, change.kind, change.previous_hash->0));
        assert(recorded.contains(recorded[k]));
    }
}

proof fn lemma_words()
    ensures
        "added"@ != "modified"@ && "added"@ != "kind-changed"@ && "added"@ != "removed"@,
        "modified"@ != "kind-changed"@ && "modified"@ != "removed"@,
        "kind-changed"@ != "removed"@,
{
    reveal_strlit("added");
    reveal_strlit("modified");
    reveal_strlit("kind-changed");
    reveal_strlit("removed");
    assert("modified"@[0] == 'm' && "removed"@[0] == 'r');
    assert("added"@.len() == 5 && "modified"@.len() == 8 && "kind-changed"@.len() == 12);
    assert("removed"@.len() == 7);
}

/// Every change is reported: a leaf that was not recorded, a leaf that was recorded with other
/// content or another kind, and a recorded leaf that is gone, each with what it is and what it was.
pub proof fn law_changes_are_reported(
    current: Seq<EntryModel>,
    recorded: Seq<RecordedModel>,
    k: int,
    m: int,
)
    requires
        once_each(recorded),
    ensures
        0 <= k < current.len() && current[k].kind != Kind::Dir && is_unrecorded(
            recorded,
            current[k].path,
        ) ==> exists|c: StateChangeJsonModel| #[trigger]
            state::changes(current, recorded).contains(c) && c.path == current[k].path
                && listings::is_kind_word(c.kind, current[k].kind) && c.change == "added"@
                && c.hash == Some(current[k].hash),
        0 <= k < current.len() && 0 <= m < recorded.len() && current[k].kind != Kind::Dir
            && recorded[m].0 == current[k].path && listings::is_kind_word(
            recorded[m].1,
            current[k].kind,
        ) && recorded[m].2 != current[k].hash ==> exists|c: StateChangeJsonModel| #[trigger]
            state::changes(current, recorded).contains(c) && c.path == current[k].path && c.kind
                == recorded[m].1 && c.change == "modified"@ && c.hash == Some(current[k].hash)
                && c.previous_hash == Some(recorded[m].2),
        0 <= k < current.len() && 0 <= m < recorded.len() && current[k].kind != Kind::Dir
            && recorded[m].0 == current[k].path && !listings::is_kind_word(
            recorded[m].1,
            current[k].kind,
        ) ==> exists|c: StateChangeJsonModel| #[trigger]
            state::changes(current, recorded).contains(c) && c.path == current[k].path
                && listings::is_kind_word(c.kind, current[k].kind) && c.change == "kind-changed"@
                && c.hash == Some(current[k].hash) && c.previous_hash == Some(recorded[m].2)
                && c.previous_kind == Some(recorded[m].1),
        0 <= m < recorded.len() && recorded[m].1 != "dir"@ && has_no_leaf(
            current,
            recorded[m].0,
        ) ==> exists|c: StateChangeJsonModel| #[trigger]
            state::changes(current, recorded).contains(c) && c.path == recorded[m].0 && c.kind
                == recorded[m].1 && c.change == "removed"@ && c.previous_hash == Some(
                recorded[m].2,
            ),
{
    if 0 <= k < current.len() && current[k].kind != Kind::Dir {
        let path = current[k].path;
        lemma_recorded_at(recorded, path);
        if state::recorded_at(recorded, path) is Some && 0 <= m < recorded.len()
            && recorded[m].0 == path {
            let (kind, hash) = state::recorded_at(recorded, path)->0;
            let at = recorded.index_of((path, kind, hash));
            assert(recorded[at].0 == recorded[m].0);
            if at < m {
                assert(recorded[at].0 != recorded[m].0);
            } else if m < at {
                assert(recorded[m].0 != recorded[at].0);
            }
        }
        match state::change_of(current[k], recorded) {
            Some(change) => {
                state::law_changes(current, recorded, change);
                assert(state::changes(current, recorded).contains(change));
            },
            None => {},
        }
        if is_unrecorded(recorded, path) && state::recorded_at(recorded, path) is Some {
            let (kind, hash) = state::recorded_at(recorded, path)->0;
            assert(recorded[recorded.index_of((path, kind, hash))].0 == path);
        }
    }
    if 0 <= m < recorded.len() {
        match state::removal_of(recorded[m], current) {
            Some(change) => {
                state::law_changes(current, recorded, change);
                assert(state::changes(current, recorded).contains(change));
            },
            None => {},
        }
    }
}

/// Nothing else is reported: a leaf that was recorded with the same kind and content is no change,
/// and what is reported stands in the order of the paths.
pub proof fn law_unchanged_leaves_are_not_reported(
    current: Seq<EntryModel>,
    recorded: Seq<RecordedModel>,
    k: int,
    m: int,
    change: StateChangeJsonModel,
)
    requires
        once_each(recorded),
        repo::distinct_paths(current),
        0 <= k < current.len(),
        0 <= m < recorded.len(),
        recorded[m].0 == current[k].path,
        recorded[m].2 == current[k].hash,
        listings::is_kind_word(recorded[m].1, current[k].kind),
        change.path == current[k].path,
    ensures
        !state::changes(current, recorded).contains(change),
        forall|i: int, j: int|
            0 <= i < j < state::changes(current, recorded).len() ==> order::text_le(
                (#[trigger] state::changes(current, recorded)[i]).path,
                (#[trigger] state::changes(current, recorded)[j]).path,
            ),
{
    let all = state::changes(current, recorded);
    state::law_changes(current, recorded, change);
    assert forall|i: int, j: int| 0 <= i < j < all.len() implies order::text_le(
        (#[trigger] all[i]).path,
        (#[trigger] all[j]).path,
    ) by {
        assert(order::Order::<StateChangeJson>::le(&(ByChangedPath {  }), all[i], all[j]));
    }
    if all.contains(change) {
        let path = current[k].path;
        lemma_recorded_at(recorded, path);
        if exists|i: int|
            0 <= i < current.len() && state::change_of(#[trigger] current[i], recorded) == Some(
                change,
            ) {
            let i = choose|i: int|
                0 <= i < current.len() && state::change_of(#[trigger] current[i], recorded)
                    == Some(change);
            assert(current[i].path == path);
            if i < k {
                assert(current[i].path != current[k].path);
            } else if k < i {
                assert(current[k].path != current[i].path);
            }
            if state::recorded_at(recorded, path) is Some {
                let (kind, hash) = state::recorded_at(recorded, path)->0;
                let at = recorded.index_of((path, kind, hash));
                if at < m {
                    assert(recorded[at].0 != recorded[m].0);
                } else if m < at {
                    assert(recorded[m].0 != recorded[at].0);
                }
            }
        } else {
            let i = choose|i: int|
                0 <= i < recorded.len() && state::removal_of(#[trigger] recorded[i], current)
                    == Some(change);
            assert(recorded[i].0 == path);
            if i < m {
                assert(recorded[i].0 != recorded[m].0);
            } else if m < i {
                assert(recorded[m].0 != recorded[i].0);
            }
            repo::law_kinds_distinct(current[k].kind, Kind::Dir);
            assert(state::has_leaf(current, recorded[i].0));
        }
    }
}

// ---------------------------------------------------------------------------------------------
// The report
// ---------------------------------------------------------------------------------------------

/// Whether an entry is a file in a supported language.
pub open spec fn is_source_file(entry: EntryModel) -> bool {
    entry.kind == Kind::File && ast::language_of(entry.path) is Some
}

/// The source files of a tree whose members are cached for their current content.
pub open spec fn cached_files(
    entries: Seq<EntryModel>,
    keys: Seq<(Seq<char>, Seq<char>)>,
) -> Seq<EntryModel> {
    entries.filter(|e: EntryModel| is_source_file(e) && keys.contains((e.path, e.hash)))
}

proof fn lemma_cache_counts(entries: Seq<EntryModel>, keys: Seq<(Seq<char>, Seq<char>)>)
    ensures
        state::cache_count(entries, keys, true) == cached_files(entries, keys).len(),
        state::cache_count(entries, keys, true) + state::cache_count(entries, keys, false)
            == entries.filter(|e: EntryModel| is_source_file(e)).len(),
    decreases entries.len(),
{
    reveal(Seq::filter);
    if entries.len() > 0 {
        lemma_cache_counts(entries.drop_last(), keys);
    }
}

/// A report names the state of the tree and the commit. The state gets recorded exactly when it was
/// not known. The cache hits are the source files that are cached for their current content, and the
/// misses are the other source files. What was compared with is repeated, and the changes are those
/// between the two; without a state to compare with there are none.
pub proof fn law_state_report(
    entries: Seq<EntryModel>,
    commit: Option<Seq<char>>,
    known: bool,
    keys: Seq<(Seq<char>, Seq<char>)>,
    compared: Option<ComparedStateModel>,
)
    requires
        entries.len() <= usize::MAX,
    ensures
        ({
            let report = state::report(entries, commit, known, keys, compared);
            let sources = entries.filter(|e: EntryModel| is_source_file(e));
            &&& report.state_hash == repo::state_text(entries)
            &&& report.commit == commit
            &&& report.known == known
            &&& report.recorded != report.known
            &&& report.member_cache_hits == cached_files(entries, keys).len()
            &&& report.member_cache_hits + report.member_cache_misses == sources.len()
            &&& compared is None ==> report.compared_state is None && report.changes.len() == 0
            &&& compared matches Some(c) ==> report.changes == state::changes(entries, c.entries)
                && report.compared_state is Some && report.compared_state->0.state_hash
                == c.info.state_hash && report.compared_state->0.commit == c.info.commit
                && report.compared_state->0.updated_at == c.info.updated_at
        }),
{
    lemma_cache_counts(entries, keys);
    lemma_filtered(entries, |e: EntryModel| is_source_file(e));
}

proof fn lemma_filtered(entries: Seq<EntryModel>, keep: spec_fn(EntryModel) -> bool)
    ensures
        entries.filter(keep).len() <= entries.len(),
    decreases entries.len(),
{
    reveal(Seq::filter);
    if entries.len() > 0 {
        lemma_filtered(entries.drop_last(), keep);
    }
}

} // verus!
