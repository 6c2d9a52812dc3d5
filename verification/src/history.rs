//! What writing a note changes in what later readings show.
//!
//! A note is bound to a path, a kind and a content hash (a member note to a path, a symbol and a
//! content hash). Writing one replaces the row of exactly that key, and the written row counts as
//! the newest from then on. Rows stand newest first.
use crate::ast::MemberModel;
use crate::output;
use crate::output::{PreviousModel, Status};
use crate::repo;
use crate::repo::{EntryModel, Kind};
use crate::store;
use crate::store::{
    MemberRowModel, MemberVersionModel, NewMemberNoteModel, NewNoteModel, NoteRowModel,
    NoteVersionModel,
};
use vstd::prelude::*;

verus! {

// ---------------------------------------------------------------------------------------------
// The rows behind a write
// ---------------------------------------------------------------------------------------------

/// The row that a written note leaves in the note table.
pub open spec fn row_of(note: NewNoteModel, now: Seq<char>) -> NoteRowModel {
    NoteRowModel {
        path: note.path,
        kind: repo::kind_name(note.kind),
        hash: note.hash,
        note: note.note,
        updated_at: now,
    }
}

/// Whether two rows are bound to the same path, kind and content.
pub open spec fn same_key(a: NoteRowModel, b: NoteRowModel) -> bool {
    a.path == b.path && a.kind == b.kind && a.hash == b.hash
}

/// The rows that are not bound to the key of `row`.
pub open spec fn without_key(rows: Seq<NoteRowModel>, row: NoteRowModel) -> Seq<NoteRowModel>
    decreases rows.len(),
{
    if rows.len() == 0 {
        rows
    } else if same_key(rows.last(), row) {
        without_key(rows.drop_last(), row)
    } else {
        without_key(rows.drop_last(), row).push(rows.last())
    }
}

/// The note table after a note was written.
pub open spec fn noted(rows: Seq<NoteRowModel>, note: NewNoteModel, now: Seq<char>) -> Seq<
    NoteRowModel,
> {
    seq![row_of(note, now)] + without_key(rows, row_of(note, now))
}

/// The row that a written member note leaves in the member-note table.
pub open spec fn member_row_of(note: NewMemberNoteModel, now: Seq<char>) -> MemberRowModel {
    MemberRowModel {
        path: note.path,
        symbol: note.symbol,
        version: MemberVersionModel {
            symbol_kind: note.symbol_kind,
            hash: note.hash,
            note: note.note,
            updated_at: now,
        },
    }
}

/// Whether two member rows are bound to the same path, symbol and content.
pub open spec fn same_member_key(a: MemberRowModel, b: MemberRowModel) -> bool {
    a.path == b.path && a.symbol == b.symbol && a.version.hash == b.version.hash
}

/// The member rows that are not bound to the key of `row`.
pub open spec fn without_member_key(rows: Seq<MemberRowModel>, row: MemberRowModel) -> Seq<
    MemberRowModel,
>
    decreases rows.len(),
{
    if rows.len() == 0 {
        rows
    } else if same_member_key(rows.last(), row) {
        without_member_key(rows.drop_last(), row)
    } else {
        without_member_key(rows.drop_last(), row).push(rows.last())
    }
}

/// The member-note table after a member note was written.
pub open spec fn member_noted(
    rows: Seq<MemberRowModel>,
    note: NewMemberNoteModel,
    now: Seq<char>,
) -> Seq<MemberRowModel> {
    seq![member_row_of(note, now)] + without_member_key(rows, member_row_of(note, now))
}

// ---------------------------------------------------------------------------------------------
// Searching the versions
// ---------------------------------------------------------------------------------------------

proof fn lemma_matching_from(
    versions: Seq<NoteVersionModel>,
    kind: Kind,
    hash: Seq<char>,
    i: int,
)
    requires
        0 <= i <= versions.len(),
    ensures
        match output::matching(versions, kind, hash, i) {
            Some(v) => v.kind == kind && v.hash == hash && exists|k: int|
                i <= k < versions.len() && #[trigger] versions[k] == v,
            None => forall|k: int|
                i <= k < versions.len() ==> !((#[trigger] versions[k]).kind == kind
                    && versions[k].hash == hash),
        },
    decreases versions.len() - i,
{
    if i < versions.len() && !(versions[i].kind == kind && versions[i].hash == hash) {
        lemma_matching_from(versions, kind, hash, i + 1);
    }
}

proof fn lemma_latest_from(versions: Seq<NoteVersionModel>, kind: Kind, i: int)
    requires
        0 <= i <= versions.len(),
    ensures
        match output::latest(versions, kind, i) {
            Some(v) => v.kind == kind && exists|k: int|
                i <= k < versions.len() && #[trigger] versions[k] == v,
            None => forall|k: int| i <= k < versions.len() ==> (#[trigger] versions[k]).kind
                != kind,
        },
    decreases versions.len() - i,
{
    if i < versions.len() && versions[i].kind != kind {
        lemma_latest_from(versions, kind, i + 1);
    }
}

proof fn lemma_matching_push(
    versions: Seq<NoteVersionModel>,
    v: NoteVersionModel,
    kind: Kind,
    hash: Seq<char>,
    i: int,
)
    requires
        0 <= i <= versions.len(),
    ensures
        output::matching(versions.push(v), kind, hash, i) == (match output::matching(
            versions,
            kind,
            hash,
            i,
        ) {
            Some(found) => Some(found),
            None => if v.kind == kind && v.hash == hash {
                Some(v)
            } else {
                None
            },
        }),
    decreases versions.len() - i,
{
    reveal_with_fuel(output::matching, 2);
    if i < versions.len() {
        assert(versions.push(v)[i] == versions[i]);
        lemma_matching_push(versions, v, kind, hash, i + 1);
    } else {
        assert(versions.push(v)[i] == v);
    }
}

proof fn lemma_matching_behind(
    first: NoteVersionModel,
    rest: Seq<NoteVersionModel>,
    kind: Kind,
    hash: Seq<char>,
    i: int,
)
    requires
        0 <= i <= rest.len(),
    ensures
        output::matching(seq![first] + rest, kind, hash, i + 1) == output::matching(
            rest,
            kind,
            hash,
            i,
        ),
    decreases rest.len() - i,
{
    if i < rest.len() {
        assert((seq![first] + rest)[i + 1] == rest[i]);
        lemma_matching_behind(first, rest, kind, hash, i + 1);
    }
}

proof fn lemma_member_matching_from(
    versions: Seq<MemberVersionModel>,
    hash: Seq<char>,
    i: int,
)
    requires
        0 <= i <= versions.len(),
    ensures
        match output::member_matching(versions, hash, i) {
            Some(v) => v.hash == hash && exists|k: int|
                i <= k < versions.len() && #[trigger] versions[k] == v,
            None => forall|k: int| i <= k < versions.len() ==> (#[trigger] versions[k]).hash
                != hash,
        },
    decreases versions.len() - i,
{
    if i < versions.len() && versions[i].hash != hash {
        lemma_member_matching_from(versions, hash, i + 1);
    }
}

proof fn lemma_member_matching_push(
    versions: Seq<MemberVersionModel>,
    v: MemberVersionModel,
    hash: Seq<char>,
    i: int,
)
    requires
        0 <= i <= versions.len(),
    ensures
        output::member_matching(versions.push(v), hash, i) == (match output::member_matching(
            versions,
            hash,
            i,
        ) {
            Some(found) => Some(found),
            None => if v.hash == hash {
                Some(v)
            } else {
                None
            },
        }),
    decreases versions.len() - i,
{
    reveal_with_fuel(output::member_matching, 2);
    if i < versions.len() {
        assert(versions.push(v)[i] == versions[i]);
        lemma_member_matching_push(versions, v, hash, i + 1);
    } else {
        assert(versions.push(v)[i] == v);
    }
}

proof fn lemma_member_matching_behind(
    first: MemberVersionModel,
    rest: Seq<MemberVersionModel>,
    hash: Seq<char>,
    i: int,
)
    requires
        0 <= i <= rest.len(),
    ensures
        output::member_matching(seq![first] + rest, hash, i + 1) == output::member_matching(
            rest,
            hash,
            i,
        ),
    decreases rest.len() - i,
{
    if i < rest.len() {
        assert((seq![first] + rest)[i + 1] == rest[i]);
        lemma_member_matching_behind(first, rest, hash, i + 1);
    }
}

// ---------------------------------------------------------------------------------------------
// The versions behind a write
// ---------------------------------------------------------------------------------------------

pub proof fn lemma_kind_named(kind: Kind)
    ensures
        store::kind_named(repo::kind_name(kind)) == Some(kind),
{
    repo::law_kinds_distinct(kind, Kind::File);
    repo::law_kinds_distinct(kind, Kind::Dir);
    repo::law_kinds_distinct(kind, Kind::Symlink);
    repo::law_kinds_distinct(kind, Kind::Submodule);
}

pub proof fn lemma_history_behind(row: NoteRowModel, rest: Seq<NoteRowModel>, path: Seq<char>)
    ensures
        store::history(seq![row] + rest, path) == store::history(seq![row], path)
            + store::history(rest, path),
    decreases rest.len(),
{
    let all = seq![row] + rest;
    if rest.len() == 0 {
        assert(all =~= seq![row]);
        assert(store::history(all, path) =~= store::history(seq![row], path) + store::history(
            rest,
            path,
        ));
    } else {
        assert(all.drop_last() =~= seq![row] + rest.drop_last());
        assert(all.last() == rest.last());
        lemma_history_behind(row, rest.drop_last(), path);
        assert(store::history(all, path) =~= store::history(seq![row], path) + store::history(
            rest,
            path,
        ));
    }
}

pub proof fn lemma_history_of_one(row: NoteRowModel, path: Seq<char>, kind: Kind)
    requires
        row.kind == repo::kind_name(kind),
    ensures
        row.path == path ==> store::history(seq![row], path) == seq![store::version_of(row, kind)],
        row.path != path ==> store::history(seq![row], path).len() == 0,
{
    lemma_kind_named(kind);
    assert(seq![row].drop_last() =~= Seq::<NoteRowModel>::empty());
    assert(seq![row].last() == row);
    assert(store::history(seq![row].drop_last(), path).len() == 0);
    if row.path == path {
        assert(store::history(seq![row], path) =~= seq![store::version_of(row, kind)]);
    }
}

proof fn lemma_history_without_other(
    rows: Seq<NoteRowModel>,
    row: NoteRowModel,
    path: Seq<char>,
)
    requires
        row.path != path,
    ensures
        store::history(without_key(rows, row), path) == store::history(rows, path),
    decreases rows.len(),
{
    if rows.len() > 0 {
        let head = without_key(rows.drop_last(), row);
        lemma_history_without_other(rows.drop_last(), row, path);
        if !same_key(rows.last(), row) {
            assert(head.push(rows.last()).drop_last() =~= head);
        }
    }
}

proof fn lemma_matching_without(
    rows: Seq<NoteRowModel>,
    row: NoteRowModel,
    row_kind: Kind,
    kind: Kind,
    hash: Seq<char>,
)
    requires
        row.kind == repo::kind_name(row_kind),
        row_kind != kind || row.hash != hash,
    ensures
        output::matching(store::history(without_key(rows, row), row.path), kind, hash, 0)
            == output::matching(store::history(rows, row.path), kind, hash, 0),
    decreases rows.len(),
{
    if rows.len() > 0 {
        let path = row.path;
        let head = without_key(rows.drop_last(), row);
        let last = rows.last();
        lemma_matching_without(rows.drop_last(), row, row_kind, kind, hash);
        lemma_kind_named(row_kind);
        let old_head = store::history(rows.drop_last(), path);
        let new_head = store::history(head, path);
        if store::kind_named(last.kind) is Some && last.path == path {
            let v = store::version_of(last, store::kind_named(last.kind)->0);
            lemma_matching_push(old_head, v, kind, hash, 0);
            lemma_matching_push(new_head, v, kind, hash, 0);
        }
        if !same_key(last, row) {
            assert(head.push(last).drop_last() =~= head);
        }
    }
}

pub proof fn lemma_member_history_behind(
    row: MemberRowModel,
    rest: Seq<MemberRowModel>,
    path: Seq<char>,
    symbol: Seq<char>,
)
    ensures
        store::member_history(seq![row] + rest, path, symbol) == (if row.path == path && row.symbol
            == symbol {
            seq![row.version]
        } else {
            Seq::empty()
        }) + store::member_history(rest, path, symbol),
    decreases rest.len(),
{
    let all = seq![row] + rest;
    let first = if row.path == path && row.symbol == symbol {
        seq![row.version]
    } else {
        Seq::empty()
    };
    if rest.len() == 0 {
        assert(all.drop_last() =~= Seq::<MemberRowModel>::empty());
        assert(all.last() == row);
        assert(store::member_history(all.drop_last(), path, symbol).len() == 0);
    } else {
        assert(all.drop_last() =~= seq![row] + rest.drop_last());
        assert(all.last() == rest.last());
        lemma_member_history_behind(row, rest.drop_last(), path, symbol);
    }
    assert(store::member_history(all, path, symbol) =~= first + store::member_history(
        rest,
        path,
        symbol,
    ));
}

proof fn lemma_member_history_without_other(
    rows: Seq<MemberRowModel>,
    row: MemberRowModel,
    path: Seq<char>,
    symbol: Seq<char>,
)
    requires
        row.path != path || row.symbol != symbol,
    ensures
        store::member_history(without_member_key(rows, row), path, symbol)
            == store::member_history(rows, path, symbol),
    decreases rows.len(),
{
    if rows.len() > 0 {
        let head = without_member_key(rows.drop_last(), row);
        lemma_member_history_without_other(rows.drop_last(), row, path, symbol);
        if !same_member_key(rows.last(), row) {
            assert(head.push(rows.last()).drop_last() =~= head);
        }
    }
}

proof fn lemma_member_matching_without(
    rows: Seq<MemberRowModel>,
    row: MemberRowModel,
    hash: Seq<char>,
)
    requires
        row.version.hash != hash,
    ensures
        output::member_matching(
            store::member_history(without_member_key(rows, row), row.path, row.symbol),
            hash,
            0,
        ) == output::member_matching(store::member_history(rows, row.path, row.symbol), hash, 0),
    decreases rows.len(),
{
    if rows.len() > 0 {
        let head = without_member_key(rows.drop_last(), row);
        let last = rows.last();
        lemma_member_matching_without(rows.drop_last(), row, hash);
        let old_head = store::member_history(rows.drop_last(), row.path, row.symbol);
        let new_head = store::member_history(head, row.path, row.symbol);
        if last.path == row.path && last.symbol == row.symbol {
            lemma_member_matching_push(old_head, last.version, hash, 0);
            lemma_member_matching_push(new_head, last.version, hash, 0);
        }
        if !same_member_key(last, row) {
            assert(head.push(last).drop_last() =~= head);
        }
    }
}

// ---------------------------------------------------------------------------------------------
// Laws
// ---------------------------------------------------------------------------------------------

/// An entry is fresh exactly when a note for its kind and content is stored, and missing exactly
/// when none of its kind is. A note is shown exactly when it is fresh, and it is then bound to the
/// current content; a previous note is shown exactly when the entry is stale, and it is then bound
/// to other content.
pub proof fn law_status(entry: EntryModel, versions: Seq<NoteVersionModel>)
    ensures
        ({
            let view = output::entry_view(entry, versions);
            &&& view.path == entry.path && view.kind == entry.kind && view.hash == entry.hash
            &&& (view.status == Status::Fresh) <==> (exists|k: int|
                0 <= k < versions.len() && (#[trigger] versions[k]).kind == entry.kind
                    && versions[k].hash == entry.hash)
            &&& (view.status == Status::Missing) <==> (forall|k: int|
                0 <= k < versions.len() ==> (#[trigger] versions[k]).kind != entry.kind)
            &&& (view.status == Status::Fresh) <==> (view.note is Some)
            &&& (view.note is Some) <==> (view.note_hash == Some(entry.hash))
            &&& (view.status == Status::Stale) <==> (view.previous is Some)
            &&& (view.previous is Some) ==> (view.previous->0.hash != entry.hash)
        }),
{
    lemma_matching_from(versions, entry.kind, entry.hash, 0);
    lemma_latest_from(versions, entry.kind, 0);
    if output::matching(versions, entry.kind, entry.hash, 0) is Some {
        let v = output::matching(versions, entry.kind, entry.hash, 0)->0;
        let k = choose|k: int| 0 <= k < versions.len() && #[trigger] versions[k] == v;
        assert(versions[k].kind == entry.kind && versions[k].hash == entry.hash);
    } else if output::latest(versions, entry.kind, 0) is Some {
        let v = output::latest(versions, entry.kind, 0)->0;
        let k = choose|k: int| 0 <= k < versions.len() && #[trigger] versions[k] == v;
        assert(versions[k].kind == entry.kind && versions[k].hash != entry.hash);
    }
}

/// The same of a member: fresh exactly when a note for its content is stored, missing exactly when
/// none is, and never a stale note shown as current.
pub proof fn law_member_status(
    path: Seq<char>,
    member: MemberModel,
    versions: Seq<MemberVersionModel>,
)
    ensures
        ({
            let view = output::member_view(path, member, versions);
            &&& view.path == path && view.symbol == member.symbol && view.hash == member.hash
            &&& (view.status == Status::Fresh) <==> (exists|k: int|
                0 <= k < versions.len() && (#[trigger] versions[k]).hash == member.hash)
            &&& (view.status == Status::Missing) <==> (versions.len() == 0)
            &&& (view.status == Status::Fresh) <==> (view.note is Some)
            &&& (view.note is Some) <==> (view.note_hash == Some(member.hash))
            &&& (view.status == Status::Stale) <==> (view.previous is Some)
            &&& (view.previous is Some) ==> (view.previous->0.hash != member.hash)
        }),
{
    lemma_member_matching_from(versions, member.hash, 0);
    if output::member_matching(versions, member.hash, 0) is Some {
        let v = output::member_matching(versions, member.hash, 0)->0;
        let k = choose|k: int| 0 <= k < versions.len() && #[trigger] versions[k] == v;
        assert(versions[k].hash == member.hash);
    } else if versions.len() > 0 {
        assert(versions[0].hash != member.hash);
    }
}

/// A reading of the entry that a note was written for shows that note, fresh, whatever was stored
/// before.
pub proof fn law_written_note_is_fresh(
    rows: Seq<NoteRowModel>,
    note: NewNoteModel,
    now: Seq<char>,
    entry: EntryModel,
)
    requires
        entry.path == note.path,
        entry.kind == note.kind,
        entry.hash == note.hash,
    ensures
        ({
            let view = output::entry_view(
                entry,
                store::history(noted(rows, note, now), entry.path),
            );
            &&& view.status == Status::Fresh
            &&& view.note == Some(note.note)
            &&& view.note_hash == Some(entry.hash)
            &&& view.note_updated_at == Some(now)
            &&& view.previous is None
        }),
{
    let row = row_of(note, now);
    lemma_history_behind(row, without_key(rows, row), note.path);
    lemma_history_of_one(row, note.path, note.kind);
    assert(store::history(noted(rows, note, now), note.path)[0] == store::version_of(
        row,
        note.kind,
    ));
}

/// When the content changes to one that no note was ever written for, the entry is stale, and the
/// note that was written last is its previous one.
pub proof fn law_edited_entry_is_stale(
    rows: Seq<NoteRowModel>,
    note: NewNoteModel,
    now: Seq<char>,
    entry: EntryModel,
)
    requires
        entry.path == note.path,
        entry.kind == note.kind,
        entry.hash != note.hash,
        output::entry_view(entry, store::history(rows, entry.path)).status != Status::Fresh,
    ensures
        ({
            let view = output::entry_view(
                entry,
                store::history(noted(rows, note, now), entry.path),
            );
            &&& view.status == Status::Stale
            &&& view.note is None
            &&& view.previous == Some(
                PreviousModel { hash: note.hash, note: note.note, updated_at: now },
            )
        }),
{
    let row = row_of(note, now);
    let rest = without_key(rows, row);
    let path = note.path;
    lemma_history_behind(row, rest, path);
    lemma_history_of_one(row, path, note.kind);
    let v = store::version_of(row, note.kind);
    let all = store::history(noted(rows, note, now), path);
    assert(all =~= seq![v] + store::history(rest, path));
    assert(all[0] == v);
    lemma_matching_behind(v, store::history(rest, path), entry.kind, entry.hash, 0);
    lemma_matching_without(rows, row, note.kind, entry.kind, entry.hash);
}

/// Writing a note for one content leaves the notes of every other content of the path alone: going
/// back to earlier content makes its note current again.
pub proof fn law_reverting_restores_the_note(
    rows: Seq<NoteRowModel>,
    note: NewNoteModel,
    now: Seq<char>,
    entry: EntryModel,
)
    requires
        entry.path == note.path,
        entry.kind != note.kind || entry.hash != note.hash,
        output::entry_view(entry, store::history(rows, entry.path)).status == Status::Fresh,
    ensures
        output::entry_view(entry, store::history(noted(rows, note, now), entry.path))
            == output::entry_view(entry, store::history(rows, entry.path)),
{
    let row = row_of(note, now);
    let rest = without_key(rows, row);
    let path = note.path;
    lemma_history_behind(row, rest, path);
    lemma_history_of_one(row, path, note.kind);
    let v = store::version_of(row, note.kind);
    let all = store::history(noted(rows, note, now), path);
    assert(all =~= seq![v] + store::history(rest, path));
    assert(all[0] == v);
    lemma_matching_behind(v, store::history(rest, path), entry.kind, entry.hash, 0);
    lemma_matching_without(rows, row, note.kind, entry.kind, entry.hash);
}

/// A note belongs to its path: identical content somewhere else keeps its own notes.
pub proof fn law_other_paths_keep_their_notes(
    rows: Seq<NoteRowModel>,
    note: NewNoteModel,
    now: Seq<char>,
    path: Seq<char>,
)
    requires
        path != note.path,
    ensures
        store::history(noted(rows, note, now), path) == store::history(rows, path),
{
    let row = row_of(note, now);
    lemma_history_behind(row, without_key(rows, row), path);
    lemma_history_of_one(row, path, note.kind);
    lemma_history_without_other(rows, row, path);
    assert(store::history(noted(rows, note, now), path) =~= store::history(rows, path));
}

/// The note table after notes were written, one after the other.
pub open spec fn all_noted(
    rows: Seq<NoteRowModel>,
    notes: Seq<NewNoteModel>,
    times: Seq<Seq<char>>,
) -> Seq<NoteRowModel>
    decreases notes.len(),
{
    if notes.len() == 0 {
        rows
    } else {
        noted(
            all_noted(rows, notes.drop_last(), times),
            notes.last(),
            times[notes.len() - 1],
        )
    }
}

/// A batch is read back whole: after its notes were written, every entry that one was written for
/// shows it, fresh.
pub proof fn law_imported_notes_are_fresh(
    rows: Seq<NoteRowModel>,
    notes: Seq<NewNoteModel>,
    times: Seq<Seq<char>>,
    k: int,
    entry: EntryModel,
)
    requires
        forall|i: int, j: int|
            0 <= i < j < notes.len() ==> (#[trigger] notes[i]).path != (#[trigger] notes[j]).path,
        0 <= k < notes.len(),
        entry.path == notes[k].path,
        entry.kind == notes[k].kind,
        entry.hash == notes[k].hash,
    ensures
        ({
            let view = output::entry_view(
                entry,
                store::history(all_noted(rows, notes, times), entry.path),
            );
            &&& view.status == Status::Fresh
            &&& view.note == Some(notes[k].note)
            &&& view.note_hash == Some(entry.hash)
            &&& view.note_updated_at == Some(times[k])
            &&& view.previous is None
        }),
    decreases notes.len(),
{
    let before = all_noted(rows, notes.drop_last(), times);
    let now = times[notes.len() - 1];
    if k == notes.len() - 1 {
        law_written_note_is_fresh(before, notes[k], now, entry);
    } else {
        assert(notes.drop_last()[k] == notes[k]);
        assert(notes[k].path != notes[notes.len() - 1].path);
        law_imported_notes_are_fresh(rows, notes.drop_last(), times, k, entry);
        law_other_paths_keep_their_notes(before, notes.last(), now, entry.path);
    }
}

/// A reading of the member that a note was written for shows that note, fresh.
pub proof fn law_written_member_note_is_fresh(
    rows: Seq<MemberRowModel>,
    note: NewMemberNoteModel,
    now: Seq<char>,
    member: MemberModel,
)
    requires
        member.symbol == note.symbol,
        member.hash == note.hash,
    ensures
        ({
            let view = output::member_view(
                note.path,
                member,
                store::member_history(member_noted(rows, note, now), note.path, note.symbol),
            );
            &&& view.status == Status::Fresh
            &&& view.note == Some(note.note)
            &&& view.note_hash == Some(member.hash)
            &&& view.note_updated_at == Some(now)
            &&& view.previous is None
        }),
{
    let row = member_row_of(note, now);
    lemma_member_history_behind(row, without_member_key(rows, row), note.path, note.symbol);
}

/// When a declaration changes to content that no note was ever written for, the member is stale,
/// and the note that was written last is its previous one.
pub proof fn law_edited_member_is_stale(
    rows: Seq<MemberRowModel>,
    note: NewMemberNoteModel,
    now: Seq<char>,
    member: MemberModel,
)
    requires
        member.symbol == note.symbol,
        member.hash != note.hash,
        output::member_view(
            note.path,
            member,
            store::member_history(rows, note.path, note.symbol),
        ).status != Status::Fresh,
    ensures
        ({
            let view = output::member_view(
                note.path,
                member,
                store::member_history(member_noted(rows, note, now), note.path, note.symbol),
            );
            &&& view.status == Status::Stale
            &&& view.note is None
            &&& view.previous == Some(
                PreviousModel { hash: note.hash, note: note.note, updated_at: now },
            )
        }),
{
    let row = member_row_of(note, now);
    let rest = without_member_key(rows, row);
    lemma_member_history_behind(row, rest, note.path, note.symbol);
    let tail = store::member_history(rest, note.path, note.symbol);
    assert((seq![row.version] + tail)[0] == row.version);
    lemma_member_matching_behind(row.version, tail, member.hash, 0);
    lemma_member_matching_without(rows, row, member.hash);
}

/// Writing a member note for one content leaves the notes of every other content of the symbol
/// alone.
pub proof fn law_reverting_restores_the_member_note(
    rows: Seq<MemberRowModel>,
    note: NewMemberNoteModel,
    now: Seq<char>,
    member: MemberModel,
)
    requires
        member.symbol == note.symbol,
        member.hash != note.hash,
        output::member_view(
            note.path,
            member,
            store::member_history(rows, note.path, note.symbol),
        ).status == Status::Fresh,
    ensures
        output::member_view(
            note.path,
            member,
            store::member_history(member_noted(rows, note, now), note.path, note.symbol),
        ) == output::member_view(
            note.path,
            member,
            store::member_history(rows, note.path, note.symbol),
        ),
{
    let row = member_row_of(note, now);
    let rest = without_member_key(rows, row);
    lemma_member_history_behind(row, rest, note.path, note.symbol);
    let tail = store::member_history(rest, note.path, note.symbol);
    assert((seq![row.version] + tail)[0] == row.version);
    lemma_member_matching_behind(row.version, tail, member.hash, 0);
    lemma_member_matching_without(rows, row, member.hash);
}

/// A member note belongs to one declaration: other symbols and other files keep their own.
pub proof fn law_other_members_keep_their_notes(
    rows: Seq<MemberRowModel>,
    note: NewMemberNoteModel,
    now: Seq<char>,
    path: Seq<char>,
    symbol: Seq<char>,
)
    requires
        path != note.path || symbol != note.symbol,
    ensures
        store::member_history(member_noted(rows, note, now), path, symbol)
            == store::member_history(rows, path, symbol),
{
    let row = member_row_of(note, now);
    lemma_member_history_behind(row, without_member_key(rows, row), path, symbol);
    lemma_member_history_without_other(rows, row, path, symbol);
    assert(store::member_history(member_noted(rows, note, now), path, symbol)
        =~= store::member_history(rows, path, symbol));
}

} // verus!
