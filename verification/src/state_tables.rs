//! What is read of recorded states: their entries, and which state is the latest.
use crate::readback;
use crate::repo;
use crate::repo::EntryModel;
use crate::state;
use crate::state::RecordedModel;
use crate::store;
use crate::store::{SnapshotModel, StatementModel};
use crate::tables;
use crate::tables::{StateKey, StoredEntry, StoredState, Tables};
use vstd::prelude::*;

verus! {

// ---------------------------------------------------------------------------------------------
// Entries
// ---------------------------------------------------------------------------------------------

/// The entries of the state with this id, in the order in which they were recorded.
pub open spec fn selected(entries: Seq<StoredEntry>, snapshot_id: i64) -> Seq<RecordedModel>
    decreases entries.len(),
{
    if entries.len() == 0 {
        Seq::empty()
    } else {
        let head = selected(entries.drop_last(), snapshot_id);
        let last = entries.last();
        if last.snapshot_id == snapshot_id {
            head.push((last.path, last.kind, last.hash))
        } else {
            head
        }
    }
}

/// Whether `rows` is what the query for the entries of a state reads: each of them once, in any
/// order.
pub open spec fn reads_entries(t: Tables, snapshot_id: i64, rows: Seq<RecordedModel>) -> bool {
    rows.to_multiset() == selected(t.entries, snapshot_id).to_multiset()
}

/// What is recorded of a tree.
pub open spec fn recorded(entries: Seq<EntryModel>) -> Seq<RecordedModel> {
    entries.map_values(|e: EntryModel| state::recorded_of(e))
}

proof fn lemma_selected_without(entries: Seq<StoredEntry>, dropped: i64, snapshot_id: i64)
    ensures
        selected(tables::without_state(entries, dropped), snapshot_id) == (if dropped
            == snapshot_id {
            Seq::empty()
        } else {
            selected(entries, snapshot_id)
        }),
    decreases entries.len(),
{
    if entries.len() > 0 {
        let head = tables::without_state(entries.drop_last(), dropped);
        lemma_selected_without(entries.drop_last(), dropped, snapshot_id);
        assert(head.push(entries.last()).drop_last() =~= head);
    }
}

/// Recording entries adds them to those of their state.
proof fn lemma_entries_written(t: Tables, snapshot_id: i64, entries: Seq<EntryModel>, other: i64)
    ensures
        ({
            let after = tables::ran_all(
                t,
                entries.map_values(|e: EntryModel| store::snapshot_entry_write(snapshot_id, e)),
            );
            &&& after == (Tables { entries: after.entries, ..t })
            &&& selected(after.entries, other) == (if other == snapshot_id {
                selected(t.entries, other) + recorded(entries)
            } else {
                selected(t.entries, other)
            })
        }),
    decreases entries.len(),
{
    let all = entries.map_values(|e: EntryModel| store::snapshot_entry_write(snapshot_id, e));
    if entries.len() == 0 {
        assert(all =~= Seq::empty());
        assert(selected(t.entries, other) + recorded(entries) =~= selected(t.entries, other));
    } else {
        let head = entries.drop_last();
        lemma_entries_written(t, snapshot_id, head, other);
        tables::lemma_statements_differ();
        assert(all.drop_last() =~= head.map_values(
            |e: EntryModel| store::snapshot_entry_write(snapshot_id, e),
        ));
        assert(all.last() == store::snapshot_entry_write(snapshot_id, entries.last()));
        let before = tables::ran_all(t, all.drop_last());
        let after = tables::ran_all(t, all);
        assert(after.entries.drop_last() =~= before.entries);
        assert(recorded(entries) =~= recorded(head).push(state::recorded_of(entries.last())));
        assert(selected(after.entries, other) =~= if other == snapshot_id {
            selected(t.entries, other) + recorded(entries)
        } else {
            selected(t.entries, other)
        });
    }
}

/// A recorded state keeps its full list of entries: reading them back gives the path, kind and hash
/// of every entry of the tree it was recorded of. The entries of other states and all other tables
/// are as they were.
pub proof fn law_recorded_entries_read_back(
    t: Tables,
    snapshot_id: i64,
    entries: Seq<EntryModel>,
)
    ensures
        ({
            let after = tables::ran_all(t, store::snapshot_entry_writes(snapshot_id, entries));
            &&& forall|rows: Seq<RecordedModel>| #[trigger]
                reads_entries(after, snapshot_id, rows) <==> rows.to_multiset() == recorded(
                    entries,
                ).to_multiset()
            &&& forall|other: i64, rows: Seq<RecordedModel>|
                other != snapshot_id ==> #[trigger] reads_entries(after, other, rows)
                    == reads_entries(t, other, rows)
            &&& after == (Tables { entries: after.entries, ..t })
        }),
{
    let all = store::snapshot_entry_writes(snapshot_id, entries);
    let first = all.take(1);
    let writes = entries.map_values(|e: EntryModel| store::snapshot_entry_write(snapshot_id, e));
    tables::lemma_statements_differ();
    assert(all =~= first + writes);
    tables::lemma_ran_all_concat(t, first, writes);
    let middle = tables::ran_all(t, first);
    assert(middle == tables::ran(t, all[0])) by {
        reveal_with_fuel(tables::ran_all, 2);
        assert(first.drop_last() =~= Seq::empty());
    }
    let after = tables::ran_all(t, all);
    lemma_selected_without(t.entries, snapshot_id, snapshot_id);
    lemma_entries_written(middle, snapshot_id, entries, snapshot_id);
    assert(selected(after.entries, snapshot_id) =~= recorded(entries));
    assert forall|other: i64, rows: Seq<RecordedModel>|
        other != snapshot_id implies #[trigger] reads_entries(after, other, rows) == reads_entries(
        t,
        other,
        rows,
    ) by {
        lemma_selected_without(t.entries, snapshot_id, other);
        lemma_entries_written(middle, snapshot_id, entries, other);
    }
}

/// A tree that is compared with its own record has no changes, in whatever order the entries of the
/// record are read.
pub proof fn law_recorded_tree_is_unchanged(
    t: Tables,
    snapshot_id: i64,
    entries: Seq<EntryModel>,
    rows: Seq<RecordedModel>,
)
    requires
        repo::distinct_paths(entries),
        reads_entries(
            tables::ran_all(t, store::snapshot_entry_writes(snapshot_id, entries)),
            snapshot_id,
            rows,
        ),
    ensures
        state::changes(entries, rows).len() == 0,
{
    law_recorded_entries_read_back(t, snapshot_id, entries);
    let all = recorded(entries);
    assert forall|i: int, j: int| 0 <= i < j < all.len() implies (#[trigger] all[i]).0 != (
    #[trigger] all[j]).0 by {
        assert(entries[i].path != entries[j].path);
    }
    state::law_unchanged_state(entries);
    if state::changes(entries, rows).len() > 0 {
        let change = state::changes(entries, rows)[0];
        assert(state::changes(entries, rows).contains(change));
        state::law_changes_order_free(entries, all, rows, change);
        assert(state::changes(entries, all).contains(change));
    }
}

// ---------------------------------------------------------------------------------------------
// States
// ---------------------------------------------------------------------------------------------

/// One state that was recorded.
#[verifier::ext_equal]
pub struct StateWrite {
    pub repository: Seq<char>,
    pub state_hash: Seq<char>,
    pub commit: Option<Seq<char>>,
    pub now: Seq<char>,
}

/// The statements that record these states.
pub open spec fn statements(writes: Seq<StateWrite>) -> Seq<StatementModel> {
    writes.map_values(
        |w: StateWrite| store::snapshot_write(w.repository, w.state_hash, w.commit, w.now),
    )
}

/// What is known of the recorded state with this key.
pub open spec fn info_of(t: Tables, key: StateKey) -> SnapshotModel {
    SnapshotModel {
        state_hash: key.1,
        commit: t.states[key].commit,
        updated_at: t.states[key].updated_at,
    }
}

/// Whether `found` is what the query for a recorded state reads: its id and what is known of it, or
/// nothing when it was never recorded.
pub open spec fn reads_state(
    t: Tables,
    repository: Seq<char>,
    state_hash: Seq<char>,
    found: Option<(int, SnapshotModel)>,
) -> bool {
    let key = (repository, state_hash);
    if t.states.contains_key(key) {
        found == Some((t.states[key].id, info_of(t, key)))
    } else {
        found is None
    }
}

/// Whether a state is one that the query for the latest state may find.
pub open spec fn is_candidate(
    t: Tables,
    repository: Seq<char>,
    exclude: Option<Seq<char>>,
    key: StateKey,
) -> bool {
    t.states.contains_key(key) && key.0 == repository && exclude != Some(key.1)
}

/// Whether `found` is what the query for the latest state reads: of the states of a repository,
/// without the excluded one, that with the highest id.
pub open spec fn reads_latest(
    t: Tables,
    repository: Seq<char>,
    exclude: Option<Seq<char>>,
    found: Option<(int, SnapshotModel)>,
) -> bool {
    match found {
        Some((id, info)) => {
            let key = (repository, info.state_hash);
            &&& is_candidate(t, repository, exclude, key)
            &&& id == t.states[key].id
            &&& info == info_of(t, key)
            &&& forall|other: StateKey| #[trigger]
                is_candidate(t, repository, exclude, other) ==> t.states[other].id <= id
        },
        None => forall|other: StateKey| !#[trigger] is_candidate(t, repository, exclude, other),
    }
}

/// Whether a write records this state.
pub open spec fn is_for(write: StateWrite, key: StateKey) -> bool {
    key == (write.repository, write.state_hash)
}

/// Position of the last write of a state; -1 when there is none.
pub open spec fn last_write(writes: Seq<StateWrite>, key: StateKey) -> int
    decreases writes.len(),
{
    if writes.len() == 0 {
        -1
    } else if is_for(writes.last(), key) {
        writes.len() - 1
    } else {
        last_write(writes.drop_last(), key)
    }
}

/// Position of the first write of a state; the number of writes when there is none.
pub open spec fn first_write(writes: Seq<StateWrite>, key: StateKey) -> int
    decreases writes.len(),
{
    if writes.len() == 0 {
        0
    } else {
        let k = first_write(writes.drop_last(), key);
        if k < writes.len() - 1 || is_for(writes.last(), key) {
            k
        } else {
            writes.len() as int
        }
    }
}

proof fn lemma_positions_of_writes(writes: Seq<StateWrite>, key: StateKey)
    ensures
        -1 <= last_write(writes, key) < writes.len(),
        0 <= first_write(writes, key) <= writes.len(),
        last_write(writes, key) >= 0 <==> first_write(writes, key) < writes.len(),
        last_write(writes, key) >= 0 ==> is_for(writes[last_write(writes, key)], key) && is_for(
            writes[first_write(writes, key)],
            key,
        ),
        forall|k: int|
            0 <= k < writes.len() && is_for(#[trigger] writes[k], key) ==> first_write(writes, key)
                <= k <= last_write(writes, key),
    decreases writes.len(),
{
    if writes.len() > 0 {
        let head = writes.drop_last();
        lemma_positions_of_writes(head, key);
        assert forall|k: int| 0 <= k < writes.len() && is_for(#[trigger] writes[k], key) implies
            first_write(writes, key) <= k <= last_write(writes, key) by {
            if k < head.len() {
                assert(head[k] == writes[k]);
            }
        }
        if last_write(head, key) >= 0 {
            assert(head[last_write(head, key)] == writes[last_write(head, key)]);
            assert(head[first_write(head, key)] == writes[first_write(head, key)]);
        }
    }
}

/// What is stored of a state after states were recorded: what the last write of it said, under an
/// id that is the position of the first one.
proof fn lemma_recorded(writes: Seq<StateWrite>, key: StateKey)
    ensures
        ({
            let t = tables::ran_all(tables::fresh(), statements(writes));
            let k = last_write(writes, key);
            &&& t.next_state_id == writes.len()
            &&& t.states.contains_key(key) <==> k >= 0
            &&& k >= 0 ==> t.states[key] == (StoredState {
                id: first_write(writes, key),
                commit: writes[k].commit,
                updated_at: writes[k].now,
            })
        }),
    decreases writes.len(),
{
    let all = statements(writes);
    if writes.len() > 0 {
        let head = writes.drop_last();
        let last = writes.last();
        assert(all.drop_last() =~= statements(head));
        assert(all.last() == store::snapshot_write(
            last.repository,
            last.state_hash,
            last.commit,
            last.now,
        ));
        lemma_recorded(head, key);
        tables::lemma_statements_differ();
        lemma_positions_of_writes(head, key);
        lemma_positions_of_writes(writes, key);
        if last_write(head, key) >= 0 {
            assert(head[last_write(head, key)] == writes[last_write(head, key)]);
        }
    } else {
        assert(all =~= Seq::empty());
    }
}

/// A state is found exactly when it was recorded in the repository, with the commit and the time of
/// its last recording.
pub proof fn law_recorded_states_are_found(
    writes: Seq<StateWrite>,
    repository: Seq<char>,
    state_hash: Seq<char>,
    found: Option<(int, SnapshotModel)>,
)
    requires
        reads_state(
            tables::ran_all(tables::fresh(), statements(writes)),
            repository,
            state_hash,
            found,
        ),
    ensures
        ({
            let k = last_write(writes, (repository, state_hash));
            &&& (found is Some) <==> (exists|j: int|
                0 <= j < writes.len() && is_for(#[trigger] writes[j], (repository, state_hash)))
            &&& (found is Some) ==> 0 <= k < writes.len() && (found->0).1 == (SnapshotModel {
                state_hash,
                commit: writes[k].commit,
                updated_at: writes[k].now,
            })
        }),
{
    let key = (repository, state_hash);
    lemma_recorded(writes, key);
    lemma_positions_of_writes(writes, key);
    let k = last_write(writes, key);
    if k >= 0 {
        assert(is_for(writes[k], key));
    }
}

/// The latest state of a repository other than an excluded one, where there is any, is the one that
/// was recorded for the first time after all others.
pub proof fn law_latest_state_was_first_recorded_last(
    writes: Seq<StateWrite>,
    repository: Seq<char>,
    exclude: Option<Seq<char>>,
    found: Option<(int, SnapshotModel)>,
)
    requires
        reads_latest(
            tables::ran_all(tables::fresh(), statements(writes)),
            repository,
            exclude,
            found,
        ),
    ensures
        found is None <==> (forall|j: int|
            0 <= j < writes.len() ==> (#[trigger] writes[j]).repository != repository || exclude
                == Some(writes[j].state_hash)),
        found matches Some((id, info)) ==> {
            let key = (repository, info.state_hash);
            let k = last_write(writes, key);
            &&& exclude != Some(info.state_hash)
            &&& 0 <= first_write(writes, key) <= k < writes.len()
            &&& info.commit == writes[k].commit
            &&& info.updated_at == writes[k].now
            &&& forall|j: int|
                0 <= j < writes.len() && (#[trigger] writes[j]).repository == repository && exclude
                    != Some(writes[j].state_hash) ==> first_write(
                    writes,
                    (repository, writes[j].state_hash),
                ) <= first_write(writes, key)
        },
{
    let t = tables::ran_all(tables::fresh(), statements(writes));
    assert forall|j: int|
        0 <= j < writes.len() && (#[trigger] writes[j]).repository == repository && exclude != Some(
            writes[j].state_hash,
        ) implies is_candidate(t, repository, exclude, (repository, writes[j].state_hash))
        && t.states[(repository, writes[j].state_hash)].id == first_write(
        writes,
        (repository, writes[j].state_hash),
    ) by {
        let key = (repository, writes[j].state_hash);
        lemma_recorded(writes, key);
        lemma_positions_of_writes(writes, key);
        assert(is_for(writes[j], key));
    }
    if let Some((id, info)) = found {
        let key = (repository, info.state_hash);
        lemma_recorded(writes, key);
        lemma_positions_of_writes(writes, key);
        let k = last_write(writes, key);
        assert(is_for(writes[k], key));
        assert(writes[k].repository == repository);
    }
}

/// Where every state was recorded once, as `state` does it, the latest state other than an excluded
/// one is the one that was recorded last.
pub proof fn law_latest_state_was_recorded_last(
    writes: Seq<StateWrite>,
    repository: Seq<char>,
    exclude: Option<Seq<char>>,
    found: Option<(int, SnapshotModel)>,
    k: int,
)
    requires
        reads_latest(
            tables::ran_all(tables::fresh(), statements(writes)),
            repository,
            exclude,
            found,
        ),
        forall|i: int, j: int|
            0 <= i < j < writes.len() && (#[trigger] writes[i]).repository == (
            #[trigger] writes[j]).repository ==> writes[i].state_hash != writes[j].state_hash,
        0 <= k < writes.len(),
        writes[k].repository == repository,
        exclude != Some(writes[k].state_hash),
        forall|j: int|
            k < j < writes.len() ==> (#[trigger] writes[j]).repository != repository || exclude
                == Some(writes[j].state_hash),
    ensures
        found matches Some((id, info)) && info == (SnapshotModel {
            state_hash: writes[k].state_hash,
            commit: writes[k].commit,
            updated_at: writes[k].now,
        }),
{
    law_latest_state_was_first_recorded_last(writes, repository, exclude, found);
    let info = (found->0).1;
    let key = (repository, info.state_hash);
    let own = (repository, writes[k].state_hash);
    lemma_positions_of_writes(writes, key);
    lemma_positions_of_writes(writes, own);
    assert(is_for(writes[k], own));
    let first = first_write(writes, own);
    if first < k {
        assert(writes[first].repository == writes[k].repository);
    }
    let m = first_write(writes, key);
    let n = last_write(writes, key);
    if m < n {
        assert(writes[m].repository == writes[n].repository);
    }
    if m > k {
        assert(writes[m].repository == repository);
    }
}

/// Recording a state changes nothing but that state: it is found afterwards with this commit and
/// time, under the id that it had if it was known. A state that was not known is then the latest
/// one, and which state is the latest one other than it stays as it was: a state compares with the
/// same one whether or not it has been recorded itself.
pub proof fn law_recording_a_state(
    t: Tables,
    repository: Seq<char>,
    state_hash: Seq<char>,
    commit: Option<Seq<char>>,
    now: Seq<char>,
)
    requires
        readback::sound(t),
    ensures
        ({
            let after = tables::ran(t, store::snapshot_write(repository, state_hash, commit, now));
            let key = (repository, state_hash);
            let known = t.states.contains_key(key);
            let info = SnapshotModel { state_hash, commit, updated_at: now };
            let id = if known {
                t.states[key].id
            } else {
                t.next_state_id
            };
            &&& after == (Tables {
                states: after.states,
                next_state_id: after.next_state_id,
                ..t
            })
            &&& forall|found: Option<(int, SnapshotModel)>| #[trigger]
                reads_state(after, repository, state_hash, found) <==> found == Some((id, info))
            &&& forall|r: Seq<char>, h: Seq<char>, found: Option<(int, SnapshotModel)>|
                (r, h) != key ==> #[trigger] reads_state(after, r, h, found) == reads_state(
                    t,
                    r,
                    h,
                    found,
                )
            &&& forall|exclude: Option<Seq<char>>, found: Option<(int, SnapshotModel)>|
                !known && exclude != Some(state_hash) ==> (#[trigger] reads_latest(
                    after,
                    repository,
                    exclude,
                    found,
                ) <==> found == Some((id, info)))
            &&& forall|found: Option<(int, SnapshotModel)>|
                #[trigger] reads_latest(after, repository, Some(state_hash), found)
                    == reads_latest(t, repository, Some(state_hash), found)
        }),
{
    let after = tables::ran(t, store::snapshot_write(repository, state_hash, commit, now));
    let key = (repository, state_hash);
    let known = t.states.contains_key(key);
    let info = SnapshotModel { state_hash, commit, updated_at: now };
    tables::lemma_statements_differ();
    assert forall|exclude: Option<Seq<char>>, found: Option<(int, SnapshotModel)>|
        !known && exclude != Some(state_hash) implies (#[trigger] reads_latest(
        after,
        repository,
        exclude,
        found,
    ) <==> found == Some((t.next_state_id, info))) by {
        assert(is_candidate(after, repository, exclude, key));
        assert forall|other: StateKey| #[trigger]
            is_candidate(after, repository, exclude, other) implies after.states[other].id
            <= t.next_state_id && (other != key ==> after.states[other].id < t.next_state_id) by {
            if other != key {
                assert(t.states.contains_key(other));
            }
        }
    }
    assert forall|found: Option<(int, SnapshotModel)>|
        #[trigger] reads_latest(after, repository, Some(state_hash), found) == reads_latest(
            t,
            repository,
            Some(state_hash),
            found,
        ) by {
        assert forall|other: StateKey|
            is_candidate(after, repository, Some(state_hash), other) == #[trigger] is_candidate(
                t,
                repository,
                Some(state_hash),
                other,
            ) && (is_candidate(t, repository, Some(state_hash), other) ==> after.states[other]
                == t.states[other]) by {}
        assert forall|other: StateKey| #[trigger]
            is_candidate(after, repository, Some(state_hash), other) implies is_candidate(
            t,
            repository,
            Some(state_hash),
            other,
        ) && after.states[other] == t.states[other] by {}
    }
}

/// Two recorded states never share their entries: recording the entries of one leaves those of the
/// other as they were.
pub proof fn law_states_keep_their_own_entries(
    t: Tables,
    one: StateKey,
    one_id: i64,
    entries: Seq<EntryModel>,
    other: StateKey,
    other_id: i64,
    rows: Seq<RecordedModel>,
)
    requires
        readback::sound(t),
        one != other,
        t.states.contains_key(one) && t.states[one].id == one_id,
        t.states.contains_key(other) && t.states[other].id == other_id,
    ensures
        reads_entries(
            tables::ran_all(t, store::snapshot_entry_writes(one_id, entries)),
            other_id,
            rows,
        ) == reads_entries(t, other_id, rows),
{
    law_recorded_entries_read_back(t, one_id, entries);
}

} // verus!
