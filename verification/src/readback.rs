//! What is read of notes after they were written: member notes over any sequence of writes, and
//! how the rows of [`crate::history`] follow from the tables.
use crate::history;
use crate::order;
use crate::repo;
use crate::repo::Kind;
use crate::store;
use crate::store::{
    MemberRowModel, MemberVersionModel, NewMemberNoteModel, NewNoteModel, NoteRowModel,
    NoteVersionModel, StatementModel,
};
use crate::tables;
use crate::tables::{MemberKey, NoteKey, StateKey, StoredMemberNote, Tables};
use vstd::prelude::*;

verus! {

// ---------------------------------------------------------------------------------------------
// Member notes after writes
// ---------------------------------------------------------------------------------------------

/// One member note that was written.
#[verifier::ext_equal]
pub struct MemberWrite {
    pub repository: Seq<char>,
    pub note: NewMemberNoteModel,
    pub now: Seq<char>,
}

/// The statements that write these member notes.
pub open spec fn statements(writes: Seq<MemberWrite>) -> Seq<StatementModel> {
    writes.map_values(|w: MemberWrite| store::member_note_write(w.repository, w.note, w.now))
}

/// The key of a member row that was read for a repository.
pub open spec fn key_of(repository: Seq<char>, row: MemberRowModel) -> MemberKey {
    (repository, row.path, row.symbol, row.version.hash)
}

/// Whether `rows` is what the query for the member notes of a repository reads: each of its rows
/// once, by path and symbol, and for each symbol by descending id.
pub open spec fn reads_member_notes(
    t: Tables,
    repository: Seq<char>,
    rows: Seq<MemberRowModel>,
) -> bool {
    &&& forall|i: int|
        0 <= i < rows.len() ==> {
            let key = key_of(repository, #[trigger] rows[i]);
            &&& t.member_notes.contains_key(key)
            &&& rows[i].version.symbol_kind == t.member_notes[key].symbol_kind
            &&& rows[i].version.note == t.member_notes[key].note
            &&& rows[i].version.updated_at == t.member_notes[key].updated_at
        }
    &&& forall|key: MemberKey| #[trigger]
        t.member_notes.contains_key(key) && key.0 == repository ==> exists|i: int|
            0 <= i < rows.len() && key_of(repository, #[trigger] rows[i]) == key
    &&& forall|i: int, j: int|
        0 <= i < j < rows.len() ==> {
            let a = #[trigger] rows[i];
            let b = #[trigger] rows[j];
            &&& order::text_le(a.path, b.path)
            &&& a.path == b.path ==> order::text_le(a.symbol, b.symbol)
            &&& a.path == b.path && a.symbol == b.symbol ==> t.member_notes[key_of(
                repository,
                a,
            )].id > t.member_notes[key_of(repository, b)].id
        }
}

/// Whether a write is for this key.
pub open spec fn is_for(write: MemberWrite, key: MemberKey) -> bool {
    key == (write.repository, write.note.path, write.note.symbol, write.note.hash)
}

/// Position of the last write for a key; -1 when there is none.
pub open spec fn last_write(writes: Seq<MemberWrite>, key: MemberKey) -> int
    decreases writes.len(),
{
    if writes.len() == 0 {
        -1
    } else if is_for(writes.last(), key) {
        writes.len() - 1
    } else {
        last_write(writes.drop_last(), key)
    }
}

/// Position of the first write for a key; the number of writes when there is none.
pub open spec fn first_write(writes: Seq<MemberWrite>, key: MemberKey) -> int
    decreases writes.len(),
{
    if writes.len() == 0 {
        0
    } else {
        let k = first_write(writes.drop_last(), key);
        if k < writes.len() - 1 || is_for(writes.last(), key) {
            k
        } else {
            writes.len() as int
        }
    }
}

proof fn lemma_positions_of_writes(writes: Seq<MemberWrite>, key: MemberKey)
    ensures
        -1 <= last_write(writes, key) < writes.len(),
        0 <= first_write(writes, key) <= writes.len(),
        last_write(writes, key) >= 0 <==> first_write(writes, key) < writes.len(),
        last_write(writes, key) >= 0 ==> is_for(writes[last_write(writes, key)], key) && is_for(
            writes[first_write(writes, key)],
            key,
        ),
        forall|k: int|
            0 <= k < writes.len() && is_for(#[trigger] writes[k], key) ==> first_write(writes, key)
                <= k <= last_write(writes, key),
    decreases writes.len(),
{
    if writes.len() > 0 {
        let head = writes.drop_last();
        lemma_positions_of_writes(head, key);
        assert forall|k: int| 0 <= k < writes.len() && is_for(#[trigger] writes[k], key) implies
            first_write(writes, key) <= k <= last_write(writes, key) by {
            if k < head.len() {
                assert(head[k] == writes[k]);
            }
        }
        if last_write(head, key) >= 0 {
            assert(head[last_write(head, key)] == writes[last_write(head, key)]);
            assert(head[first_write(head, key)] == writes[first_write(head, key)]);
        }
    }
}

/// What the member-note table holds after notes were written: for each key that one was written
/// for, the text and the time of the last one, with the position of that write as its id, and the
/// kind of the first one.
proof fn lemma_written(writes: Seq<MemberWrite>, key: MemberKey)
    ensures
        ({
            let t = tables::ran_all(tables::fresh(), statements(writes));
            let k = last_write(writes, key);
            &&& t.next_member_id == writes.len()
            &&& t.member_notes.contains_key(key) <==> k >= 0
            &&& k >= 0 ==> t.member_notes[key] == (StoredMemberNote {
                id: k,
                symbol_kind: writes[first_write(writes, key)].note.symbol_kind,
                note: writes[k].note.note,
                updated_at: writes[k].now,
            })
        }),
    decreases writes.len(),
{
    let all = statements(writes);
    if writes.len() > 0 {
        let head = writes.drop_last();
        let last = writes.last();
        assert(all.drop_last() =~= statements(head));
        assert(all.last() == store::member_note_write(last.repository, last.note, last.now));
        lemma_written(head, key);
        tables::lemma_statements_differ();
        lemma_positions_of_writes(head, key);
        lemma_positions_of_writes(writes, key);
        if last_write(head, key) >= 0 {
            assert(head[last_write(head, key)] == writes[last_write(head, key)]);
            assert(head[first_write(head, key)] == writes[first_write(head, key)]);
        }
    } else {
        assert(all =~= Seq::empty());
    }
}

/// The positions of the rows of a symbol.
spec fn positions(rows: Seq<MemberRowModel>, path: Seq<char>, symbol: Seq<char>) -> Seq<int>
    decreases rows.len(),
{
    if rows.len() == 0 {
        Seq::empty()
    } else if rows.last().path == path && rows.last().symbol == symbol {
        positions(rows.drop_last(), path, symbol).push(rows.len() - 1)
    } else {
        positions(rows.drop_last(), path, symbol)
    }
}

proof fn lemma_positions(rows: Seq<MemberRowModel>, path: Seq<char>, symbol: Seq<char>)
    ensures
        positions(rows, path, symbol).len() == store::member_history(rows, path, symbol).len(),
        forall|i: int|
            0 <= i < positions(rows, path, symbol).len() ==> {
                let at = #[trigger] positions(rows, path, symbol)[i];
                &&& 0 <= at < rows.len()
                &&& rows[at].path == path
                &&& rows[at].symbol == symbol
                &&& store::member_history(rows, path, symbol)[i] == rows[at].version
            },
        forall|i: int, j: int|
            0 <= i < j < positions(rows, path, symbol).len() ==> #[trigger] positions(
                rows,
                path,
                symbol,
            )[i] < #[trigger] positions(rows, path, symbol)[j],
        forall|at: int|
            0 <= at < rows.len() && (#[trigger] rows[at]).path == path && rows[at].symbol == symbol
                ==> positions(rows, path, symbol).contains(at),
    decreases rows.len(),
{
    if rows.len() > 0 {
        let head = rows.drop_last();
        lemma_positions(head, path, symbol);
        let old = positions(head, path, symbol);
        let now = positions(rows, path, symbol);
        assert forall|i: int| 0 <= i < now.len() implies {
            let at = #[trigger] now[i];
            &&& 0 <= at < rows.len()
            &&& rows[at].path == path
            &&& rows[at].symbol == symbol
            &&& store::member_history(rows, path, symbol)[i] == rows[at].version
        } by {
            if i < old.len() {
                assert(now[i] == old[i]);
                assert(head[old[i]] == rows[old[i]]);
            }
        }
        assert forall|i: int, j: int| 0 <= i < j < now.len() implies #[trigger] now[i]
            < #[trigger] now[j] by {
            assert(now[i] == old[i]);
            if j < old.len() {
                assert(now[j] == old[j]);
            }
        }
        assert forall|at: int|
            0 <= at < rows.len() && (#[trigger] rows[at]).path == path && rows[at].symbol
                == symbol implies now.contains(at) by {
            if at < head.len() {
                assert(head[at] == rows[at]);
                assert(old.contains(at));
                assert(now[old.index_of(at)] == at);
            } else {
                assert(now[old.len() as int] == at);
            }
        }
    }
}

/// Whether the versions are what is to be read for a symbol after member notes were written: one
/// for each content that one was written for in this repository, with the text and the time of the
/// last such write, the kind of the first one, and the later of two writes first.
pub open spec fn are_last_writes(
    versions: Seq<MemberVersionModel>,
    writes: Seq<MemberWrite>,
    repository: Seq<char>,
    path: Seq<char>,
    symbol: Seq<char>,
) -> bool {
    &&& forall|i: int|
        0 <= i < versions.len() ==> {
            let key = (repository, path, symbol, (#[trigger] versions[i]).hash);
            let k = last_write(writes, key);
            &&& 0 <= k < writes.len()
            &&& versions[i].note == writes[k].note.note
            &&& versions[i].updated_at == writes[k].now
            &&& versions[i].symbol_kind == writes[first_write(writes, key)].note.symbol_kind
        }
    &&& forall|i: int, j: int|
        0 <= i < j < versions.len() ==> last_write(
            writes,
            (repository, path, symbol, (#[trigger] versions[i]).hash),
        ) > last_write(writes, (repository, path, symbol, (#[trigger] versions[j]).hash))
    &&& forall|k: int|
        0 <= k < writes.len() && (#[trigger] writes[k]).repository == repository
            && writes[k].note.path == path && writes[k].note.symbol == symbol ==> exists|i: int|
            0 <= i < versions.len() && (#[trigger] versions[i]).hash == writes[k].note.hash
}

proof fn lemma_read_version(
    writes: Seq<MemberWrite>,
    repository: Seq<char>,
    rows: Seq<MemberRowModel>,
    path: Seq<char>,
    symbol: Seq<char>,
    i: int,
)
    requires
        reads_member_notes(
            tables::ran_all(tables::fresh(), statements(writes)),
            repository,
            rows,
        ),
        0 <= i < positions(rows, path, symbol).len(),
    ensures
        ({
            let v = store::member_history(rows, path, symbol)[i];
            let row = rows[positions(rows, path, symbol)[i]];
            let key = (repository, path, symbol, v.hash);
            let k = last_write(writes, key);
            &&& 0 <= k < writes.len()
            &&& v.note == writes[k].note.note
            &&& v.updated_at == writes[k].now
            &&& v.symbol_kind == writes[first_write(writes, key)].note.symbol_kind
            &&& key_of(repository, row) == key
            &&& tables::ran_all(tables::fresh(), statements(writes)).member_notes[key].id == k
        }),
{
    lemma_positions(rows, path, symbol);
    let at = positions(rows, path, symbol)[i];
    let v = store::member_history(rows, path, symbol)[i];
    let key = (repository, path, symbol, v.hash);
    assert(key_of(repository, rows[at]) == key);
    lemma_written(writes, key);
    lemma_positions_of_writes(writes, key);
}

proof fn lemma_write_is_read(
    writes: Seq<MemberWrite>,
    repository: Seq<char>,
    rows: Seq<MemberRowModel>,
    k: int,
)
    requires
        reads_member_notes(
            tables::ran_all(tables::fresh(), statements(writes)),
            repository,
            rows,
        ),
        0 <= k < writes.len(),
        writes[k].repository == repository,
    ensures
        ({
            let h = store::member_history(rows, writes[k].note.path, writes[k].note.symbol);
            exists|i: int| 0 <= i < h.len() && (#[trigger] h[i]).hash == writes[k].note.hash
        }),
{
    let path = writes[k].note.path;
    let symbol = writes[k].note.symbol;
    let key = (repository, path, symbol, writes[k].note.hash);
    lemma_written(writes, key);
    lemma_positions_of_writes(writes, key);
    assert(is_for(writes[k], key));
    assert(tables::ran_all(tables::fresh(), statements(writes)).member_notes.contains_key(key));
    let at = choose|at: int|
        0 <= at < rows.len() && key_of(repository, #[trigger] rows[at]) == key;
    lemma_positions(rows, path, symbol);
    assert(rows[at].path == path && rows[at].symbol == symbol);
    let i = positions(rows, path, symbol).index_of(at);
    assert(positions(rows, path, symbol)[i] == at);
    assert(store::member_history(rows, path, symbol)[i].hash == writes[k].note.hash);
}

/// After any member notes were written, for any repositories, reading the member notes of one of
/// them back gives for each symbol of a file one version per content, with the text of its last
/// write, and the later write first. Nothing that was written for another repository appears.
pub proof fn law_member_versions_are_the_last_writes(
    writes: Seq<MemberWrite>,
    repository: Seq<char>,
    rows: Seq<MemberRowModel>,
    path: Seq<char>,
    symbol: Seq<char>,
)
    requires
        reads_member_notes(
            tables::ran_all(tables::fresh(), statements(writes)),
            repository,
            rows,
        ),
    ensures
        are_last_writes(
            store::member_history(rows, path, symbol),
            writes,
            repository,
            path,
            symbol,
        ),
{
    let h = store::member_history(rows, path, symbol);
    let p = positions(rows, path, symbol);
    lemma_positions(rows, path, symbol);
    assert forall|i: int| 0 <= i < h.len() implies ({
        let key = (repository, path, symbol, (#[trigger] h[i]).hash);
        let k = last_write(writes, key);
        &&& 0 <= k < writes.len()
        &&& h[i].note == writes[k].note.note
        &&& h[i].updated_at == writes[k].now
        &&& h[i].symbol_kind == writes[first_write(writes, key)].note.symbol_kind
    }) by {
        lemma_read_version(writes, repository, rows, path, symbol, i);
    }
    assert forall|i: int, j: int| 0 <= i < j < h.len() implies last_write(
        writes,
        (repository, path, symbol, (#[trigger] h[i]).hash),
    ) > last_write(writes, (repository, path, symbol, (#[trigger] h[j]).hash)) by {
        lemma_read_version(writes, repository, rows, path, symbol, i);
        lemma_read_version(writes, repository, rows, path, symbol, j);
        assert(p[i] < p[j]);
        assert(rows[p[i]].path == rows[p[j]].path && rows[p[i]].symbol == rows[p[j]].symbol);
    }
    assert forall|k: int|
        0 <= k < writes.len() && (#[trigger] writes[k]).repository == repository
            && writes[k].note.path == path && writes[k].note.symbol == symbol implies exists|
        i: int,
    | 0 <= i < h.len() && (#[trigger] h[i]).hash == writes[k].note.hash by {
        lemma_write_is_read(writes, repository, rows, k);
    }
}

// ---------------------------------------------------------------------------------------------
// Sound tables
// ---------------------------------------------------------------------------------------------

/// Whether the tables are as writes leave them: ids are below the next one, kinds exist, and no two
/// recorded states share an id.
pub open spec fn sound(t: Tables) -> bool {
    &&& forall|key: NoteKey| #[trigger]
        t.notes.contains_key(key) ==> t.notes[key].id < t.next_id && store::kind_named(
            key.2,
        ) is Some
    &&& forall|key: MemberKey| #[trigger]
        t.member_notes.contains_key(key) ==> t.member_notes[key].id < t.next_member_id
    &&& forall|key: StateKey| #[trigger]
        t.states.contains_key(key) ==> t.states[key].id < t.next_state_id
    &&& forall|a: StateKey, b: StateKey|
        #![trigger t.states.contains_key(a), t.states.contains_key(b)]
        t.states.contains_key(a) && t.states.contains_key(b) && t.states[a].id == t.states[b].id
            ==> a == b
}

/// A fresh database is sound, and every statement that writes a note, a member note, a state or its
/// entries, or the member cache leaves a sound database sound.
pub proof fn law_tables_stay_sound(t: Tables, statement: StatementModel)
    requires
        sound(t),
        statement.sql == store::WRITE_NOTE@ ==> store::kind_named(
            tables::text_of(statement.params[2]),
        ) is Some,
    ensures
        sound(tables::fresh()),
        sound(tables::ran(t, statement)),
{
    let after = tables::ran(t, statement);
    assert forall|a: StateKey, b: StateKey|
        #![trigger after.states.contains_key(a), after.states.contains_key(b)]
        after.states.contains_key(a) && after.states.contains_key(b) && after.states[a].id
            == after.states[b].id implies a == b by {
        if t.states.contains_key(a) && t.states.contains_key(b) {
            assert(t.states[a].id == after.states[a].id);
            assert(t.states[b].id == after.states[b].id);
        }
    }
}

// ---------------------------------------------------------------------------------------------
// Sequences with descending ids
// ---------------------------------------------------------------------------------------------

/// Whether ids descend along a sequence.
spec fn descending<V>(s: Seq<V>, id: spec_fn(V) -> int) -> bool {
    forall|i: int, j: int| 0 <= i < j < s.len() ==> id(#[trigger] s[i]) > id(#[trigger] s[j])
}

/// There is only one way to list values by descending id.
proof fn lemma_descending_unique<V>(a: Seq<V>, b: Seq<V>, id: spec_fn(V) -> int)
    requires
        descending(a, id),
        descending(b, id),
        forall|v: V| #[trigger] a.contains(v) <==> b.contains(v),
    ensures
        a == b,
    decreases a.len(),
{
    if a.len() == 0 {
        if b.len() > 0 {
            assert(b.contains(b[0]));
            assert(a.contains(b[0]));
        }
        assert(a =~= b);
    } else {
        let x = a.last();
        assert(a[a.len() - 1] == x);
        assert(a.contains(x));
        let i = b.index_of(x);
        let y = b.last();
        assert(b[b.len() - 1] == y);
        assert(b.contains(y));
        assert(a.contains(y));
        let j = a.index_of(y);
        assert(a[j] == y);
        if x != y {
            assert(id(b[i]) > id(b[b.len() - 1]));
            assert(id(a[j]) > id(a[a.len() - 1]));
        }
        let c = a.drop_last();
        let d = b.drop_last();
        assert forall|v: V| #[trigger] c.contains(v) <==> d.contains(v) by {
            if c.contains(v) {
                let k = c.index_of(v);
                assert(a[k] == v);
                assert(id(a[k]) > id(a[a.len() - 1]));
                assert(a.contains(v));
                let m = b.index_of(v);
                assert(b[m] == v);
                assert(d[m] == v);
            }
            if d.contains(v) {
                let k = d.index_of(v);
                assert(b[k] == v);
                assert(id(b[k]) > id(b[b.len() - 1]));
                assert(b.contains(v));
                assert(a.contains(v));
                let m = a.index_of(v);
                assert(a[m] == v);
                assert(c[m] == v);
            }
        }
        lemma_descending_unique(c, d, id);
        assert(a =~= c.push(x));
        assert(b =~= d.push(y));
    }
}

/// The values that are not gone, in their order.
spec fn without<V>(s: Seq<V>, gone: spec_fn(V) -> bool) -> Seq<V>
    decreases s.len(),
{
    if s.len() == 0 {
        s
    } else if gone(s.last()) {
        without(s.drop_last(), gone)
    } else {
        without(s.drop_last(), gone).push(s.last())
    }
}

proof fn lemma_without<V>(s: Seq<V>, gone: spec_fn(V) -> bool, id: spec_fn(V) -> int)
    requires
        descending(s, id),
    ensures
        forall|v: V| #[trigger] without(s, gone).contains(v) <==> s.contains(v) && !gone(v),
        descending(without(s, gone), id),
    decreases s.len(),
{
    if s.len() > 0 {
        let head = s.drop_last();
        assert(descending(head, id)) by {
            assert forall|i: int, j: int| 0 <= i < j < head.len() implies id(#[trigger] head[i])
                > id(#[trigger] head[j]) by {
                assert(head[i] == s[i] && head[j] == s[j]);
            }
        }
        lemma_without(head, gone, id);
        let old = without(head, gone);
        let now = without(s, gone);
        assert forall|v: V| #[trigger] now.contains(v) <==> s.contains(v) && !gone(v) by {
            if now.contains(v) {
                let k = now.index_of(v);
                if k < old.len() {
                    assert(old[k] == v);
                    assert(old.contains(v));
                    assert(s[head.index_of(v)] == v);
                } else {
                    assert(s[s.len() - 1] == v);
                }
            }
            if s.contains(v) && !gone(v) {
                let k = s.index_of(v);
                if k < head.len() {
                    assert(head[k] == v);
                    assert(old.contains(v));
                    assert(now[old.index_of(v)] == v);
                } else {
                    assert(now[old.len() as int] == v);
                }
            }
        }
        assert forall|i: int, j: int| 0 <= i < j < now.len() implies id(#[trigger] now[i]) > id(
            #[trigger] now[j],
        ) by {
            assert(now[i] == old[i]);
            if j < old.len() {
                assert(now[j] == old[j]);
            } else {
                assert(old.contains(old[i]));
                let k = head.index_of(old[i]);
                assert(s[k] == old[i] && s[s.len() - 1] == now[j]);
            }
        }
    } else {
        assert(without(s, gone) =~= s);
    }
}

/// A value with a higher id in front.
proof fn lemma_in_front<V>(v: V, rest: Seq<V>, id: spec_fn(V) -> int)
    requires
        descending(rest, id),
        forall|x: V| #[trigger] rest.contains(x) ==> id(v) > id(x),
    ensures
        descending(seq![v] + rest, id),
        forall|x: V| #[trigger] (seq![v] + rest).contains(x) <==> x == v || rest.contains(x),
{
    let all = seq![v] + rest;
    assert forall|i: int, j: int| 0 <= i < j < all.len() implies id(#[trigger] all[i]) > id(
        #[trigger] all[j],
    ) by {
        assert(all[j] == rest[j - 1]);
        assert(rest.contains(rest[j - 1]));
        if i > 0 {
            assert(all[i] == rest[i - 1]);
        }
    }
    assert forall|x: V| #[trigger] all.contains(x) <==> x == v || rest.contains(x) by {
        if all.contains(x) {
            let k = all.index_of(x);
            if k > 0 {
                assert(rest[k - 1] == x);
            }
        }
        if rest.contains(x) {
            assert(all[rest.index_of(x) + 1] == x);
        }
        assert(all[0] == v);
    }
}

// ---------------------------------------------------------------------------------------------
// The history of notes
// ---------------------------------------------------------------------------------------------

/// The id of the stored version of an entry that has this kind and content.
spec fn version_id(t: Tables, repository: Seq<char>, path: Seq<char>) -> spec_fn(
    NoteVersionModel,
) -> int {
    |v: NoteVersionModel| t.notes[(repository, path, repo::kind_name(v.kind), v.hash)].id
}

/// Whether a version of an entry is stored.
spec fn is_stored(
    t: Tables,
    repository: Seq<char>,
    path: Seq<char>,
    v: NoteVersionModel,
) -> bool {
    let key = (repository, path, repo::kind_name(v.kind), v.hash);
    t.notes.contains_key(key) && v.note == t.notes[key].note && v.updated_at
        == t.notes[key].updated_at
}

/// What is read of an entry are its stored versions, by descending id.
proof fn lemma_read_history(
    t: Tables,
    repository: Seq<char>,
    rows: Seq<NoteRowModel>,
    path: Seq<char>,
)
    requires
        sound(t),
        tables::reads_notes(t, repository, rows),
    ensures
        descending(store::history(rows, path), version_id(t, repository, path)),
        forall|v: NoteVersionModel| #[trigger]
            store::history(rows, path).contains(v) <==> is_stored(t, repository, path, v),
{
    let h = store::history(rows, path);
    let p = tables::positions(rows, path);
    let id = version_id(t, repository, path);
    assert forall|i: int| 0 <= i < rows.len() implies store::kind_named(
        (#[trigger] rows[i]).kind,
    ) is Some by {
        assert(t.notes.contains_key(tables::key_of(repository, rows[i])));
    }
    tables::lemma_positions(rows, path);
    assert forall|i: int| 0 <= i < h.len() implies tables::key_of(
        repository,
        rows[#[trigger] p[i]],
    ) == (repository, path, repo::kind_name(h[i].kind), h[i].hash) by {
        lemma_named_kind(rows[p[i]].kind);
    }
    assert forall|i: int, j: int| 0 <= i < j < h.len() implies id(#[trigger] h[i]) > id(
        #[trigger] h[j],
    ) by {
        assert(p[i] < p[j]);
        assert(rows[p[i]].path == rows[p[j]].path);
    }
    assert forall|v: NoteVersionModel| #[trigger] h.contains(v) <==> is_stored(
        t,
        repository,
        path,
        v,
    ) by {
        if h.contains(v) {
            let i = h.index_of(v);
            let row = rows[p[i]];
            assert(t.notes.contains_key(tables::key_of(repository, row)));
        }
        if is_stored(t, repository, path, v) {
            let key = (repository, path, repo::kind_name(v.kind), v.hash);
            let at = choose|at: int|
                0 <= at < rows.len() && tables::key_of(repository, #[trigger] rows[at]) == key;
            assert(p.contains(at));
            let i = p.index_of(at);
            assert(p[i] == at);
            history::lemma_kind_named(v.kind);
            assert(h[i] == v);
        }
    }
}

/// The kind of a name has that name.
proof fn lemma_named_kind(name: Seq<char>)
    requires
        store::kind_named(name) is Some,
    ensures
        repo::kind_name(store::kind_named(name)->0) == name,
{
}

proof fn lemma_history_without(rows: Seq<NoteRowModel>, row: NoteRowModel, kind: Kind)
    requires
        row.kind == repo::kind_name(kind),
    ensures
        store::history(history::without_key(rows, row), row.path) == without(
            store::history(rows, row.path),
            |v: NoteVersionModel| v.kind == kind && v.hash == row.hash,
        ),
    decreases rows.len(),
{
    let gone = |v: NoteVersionModel| v.kind == kind && v.hash == row.hash;
    if rows.len() > 0 {
        let last = rows.last();
        let head = history::without_key(rows.drop_last(), row);
        lemma_history_without(rows.drop_last(), row, kind);
        history::lemma_kind_named(kind);
        let h = store::history(rows.drop_last(), row.path);
        if !history::same_key(last, row) {
            assert(head.push(last).drop_last() =~= head);
        }
        if last.path == row.path && store::kind_named(last.kind) is Some {
            lemma_named_kind(last.kind);
            let v = store::version_of(last, store::kind_named(last.kind)->0);
            assert(h.push(v).drop_last() =~= h);
            assert(gone(v) == history::same_key(last, row));
        }
    } else {
        assert(store::history(rows, row.path) =~= Seq::empty());
    }
}

/// Writing a note changes what is read as [`history::noted`] says: what is shown of any entry
/// behind the write is what the rows that were read before, with the row of the note, show.
pub proof fn law_notes_read_as_noted(
    t: Tables,
    repository: Seq<char>,
    note: NewNoteModel,
    now: Seq<char>,
    rows: Seq<NoteRowModel>,
    after: Seq<NoteRowModel>,
    path: Seq<char>,
)
    requires
        sound(t),
        tables::reads_notes(t, repository, rows),
        tables::reads_notes(
            tables::ran(t, store::note_write(repository, note, now)),
            repository,
            after,
        ),
    ensures
        store::history(after, path) == store::history(history::noted(rows, note, now), path),
{
    let statement = store::note_write(repository, note, now);
    let t2 = tables::ran(t, statement);
    let row = history::row_of(note, now);
    let key = (repository, note.path, repo::kind_name(note.kind), note.hash);
    let id = version_id(t2, repository, path);
    history::lemma_kind_named(note.kind);
    law_tables_stay_sound(t, statement);
    lemma_read_history(t, repository, rows, path);
    lemma_read_history(t2, repository, after, path);
    let h = store::history(rows, path);
    let g = store::history(history::noted(rows, note, now), path);
    if path != note.path {
        history::law_other_paths_keep_their_notes(rows, note, now, path);
        assert forall|i: int, j: int| 0 <= i < j < h.len() implies id(#[trigger] h[i]) > id(
            #[trigger] h[j],
        ) by {
            assert(version_id(t, repository, path)(h[i]) > version_id(t, repository, path)(h[j]));
        }
        assert forall|v: NoteVersionModel| #[trigger] store::history(after, path).contains(v)
            <==> g.contains(v) by {
            assert(is_stored(t, repository, path, v) == is_stored(t2, repository, path, v));
            assert(h.contains(v) <==> is_stored(t, repository, path, v));
        }
    } else {
        let gone = |v: NoteVersionModel| v.kind == note.kind && v.hash == row.hash;
        let v0 = store::version_of(row, note.kind);
        lemma_history_without(rows, row, note.kind);
        history::lemma_history_behind(row, history::without_key(rows, row), path);
        history::lemma_history_of_one(row, path, note.kind);
        let rest = without(h, gone);
        lemma_without(h, gone, version_id(t, repository, path));
        assert forall|x: NoteVersionModel| #[trigger] rest.contains(x) implies id(x)
            == version_id(t, repository, path)(x) && id(v0) > id(x) by {
            assert(h.contains(x) && !gone(x));
            assert(is_stored(t, repository, path, x));
            repo::law_kinds_distinct(x.kind, note.kind);
        }
        assert(descending(rest, id)) by {
            assert forall|i: int, j: int| 0 <= i < j < rest.len() implies id(#[trigger] rest[i])
                > id(#[trigger] rest[j]) by {
                assert(rest.contains(rest[i]) && rest.contains(rest[j]));
                assert(version_id(t, repository, path)(rest[i]) > version_id(t, repository, path)(
                    rest[j],
                ));
            }
        }
        lemma_in_front(v0, rest, id);
        assert(g =~= seq![v0] + rest);
        assert forall|v: NoteVersionModel| #[trigger] store::history(after, path).contains(v)
            <==> g.contains(v) by {
            assert((seq![v0] + rest).contains(v) <==> v == v0 || rest.contains(v));
            assert(rest.contains(v) <==> h.contains(v) && !gone(v));
            assert(h.contains(v) <==> is_stored(t, repository, path, v));
            repo::law_kinds_distinct(v.kind, note.kind);
            if gone(v) {
                assert(is_stored(t2, repository, path, v) <==> v == v0);
            } else {
                assert(is_stored(t2, repository, path, v) == is_stored(t, repository, path, v));
            }
        }
    }
    lemma_descending_unique(store::history(after, path), g, id);
}

// ---------------------------------------------------------------------------------------------
// The history of member notes
// ---------------------------------------------------------------------------------------------

/// The id of the stored version of a member that has this content.
spec fn member_version_id(
    t: Tables,
    repository: Seq<char>,
    path: Seq<char>,
    symbol: Seq<char>,
) -> spec_fn(MemberVersionModel) -> int {
    |v: MemberVersionModel| t.member_notes[(repository, path, symbol, v.hash)].id
}

/// Whether a version of a member is stored.
spec fn is_stored_member(
    t: Tables,
    repository: Seq<char>,
    path: Seq<char>,
    symbol: Seq<char>,
    v: MemberVersionModel,
) -> bool {
    let key = (repository, path, symbol, v.hash);
    t.member_notes.contains_key(key) && v.symbol_kind == t.member_notes[key].symbol_kind && v.note
        == t.member_notes[key].note && v.updated_at == t.member_notes[key].updated_at
}

/// What is read of a member are its stored versions, by descending id.
proof fn lemma_read_member_history(
    t: Tables,
    repository: Seq<char>,
    rows: Seq<MemberRowModel>,
    path: Seq<char>,
    symbol: Seq<char>,
)
    requires
        reads_member_notes(t, repository, rows),
    ensures
        descending(
            store::member_history(rows, path, symbol),
            member_version_id(t, repository, path, symbol),
        ),
        forall|v: MemberVersionModel| #[trigger]
            store::member_history(rows, path, symbol).contains(v) <==> is_stored_member(
                t,
                repository,
                path,
                symbol,
                v,
            ),
{
    let h = store::member_history(rows, path, symbol);
    let p = positions(rows, path, symbol);
    let id = member_version_id(t, repository, path, symbol);
    lemma_positions(rows, path, symbol);
    assert forall|i: int| 0 <= i < h.len() implies key_of(repository, rows[#[trigger] p[i]]) == (
        repository,
        path,
        symbol,
        h[i].hash,
    ) by {}
    assert forall|i: int, j: int| 0 <= i < j < h.len() implies id(#[trigger] h[i]) > id(
        #[trigger] h[j],
    ) by {
        assert(p[i] < p[j]);
        assert(rows[p[i]].path == rows[p[j]].path && rows[p[i]].symbol == rows[p[j]].symbol);
    }
    assert forall|v: MemberVersionModel| #[trigger] h.contains(v) <==> is_stored_member(
        t,
        repository,
        path,
        symbol,
        v,
    ) by {
        if h.contains(v) {
            let i = h.index_of(v);
            let row = rows[p[i]];
            assert(t.member_notes.contains_key(key_of(repository, row)));
        }
        if is_stored_member(t, repository, path, symbol, v) {
            let key = (repository, path, symbol, v.hash);
            let at = choose|at: int|
                0 <= at < rows.len() && key_of(repository, #[trigger] rows[at]) == key;
            assert(p.contains(at));
            let i = p.index_of(at);
            assert(p[i] == at);
            assert(h[i] == v);
        }
    }
}

proof fn lemma_member_history_without(rows: Seq<MemberRowModel>, row: MemberRowModel)
    ensures
        store::member_history(history::without_member_key(rows, row), row.path, row.symbol)
            == without(
            store::member_history(rows, row.path, row.symbol),
            |v: MemberVersionModel| v.hash == row.version.hash,
        ),
    decreases rows.len(),
{
    let gone = |v: MemberVersionModel| v.hash == row.version.hash;
    if rows.len() > 0 {
        let last = rows.last();
        let head = history::without_member_key(rows.drop_last(), row);
        lemma_member_history_without(rows.drop_last(), row);
        let h = store::member_history(rows.drop_last(), row.path, row.symbol);
        if !history::same_member_key(last, row) {
            assert(head.push(last).drop_last() =~= head);
        }
        if last.path == row.path && last.symbol == row.symbol {
            assert(h.push(last.version).drop_last() =~= h);
            assert(gone(last.version) == history::same_member_key(last, row));
        }
    } else {
        assert(store::member_history(rows, row.path, row.symbol) =~= Seq::empty());
    }
}

/// Writing a member note changes what is read as [`history::member_noted`] says: what is shown of
/// any member behind the write is what the rows that were read before, with the row of the note,
/// show. A member note that is written again has the kind it was first written with: the kind is
/// part of the symbol.
pub proof fn law_member_notes_read_as_noted(
    t: Tables,
    repository: Seq<char>,
    note: NewMemberNoteModel,
    now: Seq<char>,
    rows: Seq<MemberRowModel>,
    after: Seq<MemberRowModel>,
    path: Seq<char>,
    symbol: Seq<char>,
)
    requires
        sound(t),
        ({
            let key = (repository, note.path, note.symbol, note.hash);
            t.member_notes.contains_key(key) ==> t.member_notes[key].symbol_kind
                == note.symbol_kind
        }),
        reads_member_notes(t, repository, rows),
        reads_member_notes(
            tables::ran(t, store::member_note_write(repository, note, now)),
            repository,
            after,
        ),
    ensures
        store::member_history(after, path, symbol) == store::member_history(
            history::member_noted(rows, note, now),
            path,
            symbol,
        ),
{
    let statement = store::member_note_write(repository, note, now);
    tables::lemma_statements_differ();
    let t2 = tables::ran(t, statement);
    let row = history::member_row_of(note, now);
    let id = member_version_id(t2, repository, path, symbol);
    let old_id = member_version_id(t, repository, path, symbol);
    lemma_read_member_history(t, repository, rows, path, symbol);
    lemma_read_member_history(t2, repository, after, path, symbol);
    let h = store::member_history(rows, path, symbol);
    let g = store::member_history(history::member_noted(rows, note, now), path, symbol);
    if path != note.path || symbol != note.symbol {
        history::law_other_members_keep_their_notes(rows, note, now, path, symbol);
        assert forall|i: int, j: int| 0 <= i < j < h.len() implies id(#[trigger] h[i]) > id(
            #[trigger] h[j],
        ) by {
            assert(old_id(h[i]) > old_id(h[j]));
        }
        assert forall|v: MemberVersionModel| #[trigger]
            store::member_history(after, path, symbol).contains(v) <==> g.contains(v) by {
            assert(is_stored_member(t, repository, path, symbol, v) == is_stored_member(
                t2,
                repository,
                path,
                symbol,
                v,
            ));
            assert(h.contains(v) <==> is_stored_member(t, repository, path, symbol, v));
        }
    } else {
        let gone = |v: MemberVersionModel| v.hash == row.version.hash;
        let v0 = row.version;
        lemma_member_history_without(rows, row);
        history::lemma_member_history_behind(
            row,
            history::without_member_key(rows, row),
            path,
            symbol,
        );
        let rest = without(h, gone);
        lemma_without(h, gone, old_id);
        assert forall|x: MemberVersionModel| #[trigger] rest.contains(x) implies id(x) == old_id(x)
            && id(v0) > id(x) by {
            assert(h.contains(x) && !gone(x));
            assert(is_stored_member(t, repository, path, symbol, x));
        }
        assert(descending(rest, id)) by {
            assert forall|i: int, j: int| 0 <= i < j < rest.len() implies id(#[trigger] rest[i])
                > id(#[trigger] rest[j]) by {
                assert(rest.contains(rest[i]) && rest.contains(rest[j]));
                assert(old_id(rest[i]) > old_id(rest[j]));
            }
        }
        lemma_in_front(v0, rest, id);
        assert(g =~= seq![v0] + rest);
        assert forall|v: MemberVersionModel| #[trigger]
            store::member_history(after, path, symbol).contains(v) <==> g.contains(v) by {
            assert((seq![v0] + rest).contains(v) <==> v == v0 || rest.contains(v));
            assert(rest.contains(v) <==> h.contains(v) && !gone(v));
            assert(h.contains(v) <==> is_stored_member(t, repository, path, symbol, v));
            if gone(v) {
                assert(is_stored_member(t2, repository, path, symbol, v) <==> v == v0);
            } else {
                assert(is_stored_member(t2, repository, path, symbol, v) == is_stored_member(
                    t,
                    repository,
                    path,
                    symbol,
                    v,
                ));
            }
        }
    }
    lemma_descending_unique(store::member_history(after, path, symbol), g, id);
}

} // verus!
