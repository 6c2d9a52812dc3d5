//! What is accepted as a note, and what writing one comes to.
use crate::annotate;
use crate::annotate::ImportRecordModel;
use crate::ast::MemberModel;
use crate::commands;
use crate::paths;
use crate::repo::{EntryModel, Kind};
use crate::scope;
use crate::store::{NewMemberNoteModel, NewNoteModel};
use crate::text;
use crate::CmdErrorModel;
use vstd::prelude::*;

verus! {

// ---------------------------------------------------------------------------------------------
// Texts
// ---------------------------------------------------------------------------------------------

/// Whether a text is nothing but line feeds and carriage returns.
pub open spec fn is_line_end(s: Seq<char>) -> bool {
    forall|i: int| 0 <= i < s.len() ==> (#[trigger] s[i] == '\n' || s[i] == '\r')
}

/// Whether a text is one line that is not blank.
pub open spec fn is_one_line(s: Seq<char>) -> bool {
    &&& forall|i: int| 0 <= i < s.len() ==> (#[trigger] s[i] != '\n' && s[i] != '\r')
    &&& exists|i: int| 0 <= i < s.len() && !text::is_white_space(#[trigger] s[i])
}

pub proof fn lemma_stripped_line(line: Seq<char>, end: Seq<char>)
    requires
        is_line_end(end),
        line.len() > 0 ==> line.last() != '\n' && line.last() != '\r',
    ensures
        annotate::stripped(line + end) == line,
    decreases end.len(),
{
    let all = line + end;
    if end.len() == 0 {
        assert(all =~= line);
    } else {
        assert(all.last() == end[end.len() - 1]);
        assert(all.drop_last() =~= line + end.drop_last());
        assert forall|i: int| 0 <= i < end.drop_last().len() implies (
        #[trigger] end.drop_last()[i] == '\n' || end.drop_last()[i] == '\r') by {
            assert(end.drop_last()[i] == end[i]);
        }
        lemma_stripped_line(line, end.drop_last());
    }
}

/// Every line that is not blank is accepted as a note, however long it is, with or without line
/// ends behind it, and the note is that line.
pub proof fn law_lines_are_accepted(line: Seq<char>, end: Seq<char>)
    requires
        is_one_line(line),
        is_line_end(end),
    ensures
        annotate::valid_note(line + end) == Ok::<Seq<char>, CmdErrorModel>(line),
{
    lemma_stripped_line(line, end);
    text::lemma_trimmed_empty(line);
    assert(!line.contains('\n') && !line.contains('\r'));
}

/// What is no such line is refused as invalid input: a blank text, and one with a line end in the
/// middle.
pub proof fn law_other_texts_are_refused(raw: Seq<char>)
    ensures
        annotate::valid_note(raw) is Err <==> !exists|line: Seq<char>, end: Seq<char>|
            is_one_line(line) && is_line_end(end) && raw == #[trigger] (line + end),
        annotate::valid_note(raw) matches Err(error) ==> error.code == 1,
{
    if exists|line: Seq<char>, end: Seq<char>|
        is_one_line(line) && is_line_end(end) && raw == #[trigger] (line + end) {
        let (line, end) = choose|line: Seq<char>, end: Seq<char>|
            is_one_line(line) && is_line_end(end) && raw == #[trigger] (line + end);
        law_lines_are_accepted(line, end);
    }
    if annotate::valid_note(raw) is Ok {
        annotate::law_valid_notes(raw);
        let line = annotate::valid_note(raw)->Ok_0;
        let end = raw.skip(line.len() as int);
        assert(raw =~= line + end);
        assert forall|i: int| 0 <= i < end.len() implies (#[trigger] end[i] == '\n' || end[i]
            == '\r') by {
            assert(annotate::ends_line(raw[i + line.len()]));
        }
        assert forall|i: int| 0 <= i < line.len() implies (#[trigger] line[i] != '\n' && line[i]
            != '\r') by {
            assert(line.contains(line[i]));
        }
        assert(is_one_line(line) && is_line_end(end));
    }
}

// ---------------------------------------------------------------------------------------------
// `set`
// ---------------------------------------------------------------------------------------------

/// Whether the `k`-th entry is the first one with this path.
pub open spec fn is_entry_of(entries: Seq<EntryModel>, path: Seq<char>, k: int) -> bool {
    0 <= k < entries.len() && entries[k].path == path && forall|j: int|
        0 <= j < k ==> (#[trigger] entries[j]).path != path
}

pub proof fn lemma_entry_found(entries: Seq<EntryModel>, path: Seq<char>, i: int, k: int)
    requires
        is_entry_of(entries, path, k),
        0 <= i <= k,
    ensures
        scope::entry_from(entries, path, i) == Some(entries[k]),
    decreases k - i,
{
    if i < k {
        assert(entries[i].path != path);
        lemma_entry_found(entries, path, i + 1, k);
    }
}

/// `set` writes what it is asked to: for an entry of the tree, any line that is not blank, guarded
/// by no hash or by the current one, becomes the note of that path, kind and content. Members can
/// only be carried along for a file.
pub proof fn law_set_writes_the_note(
    repository: Seq<char>,
    entries: Seq<EntryModel>,
    k: int,
    expected: Option<Seq<char>>,
    line: Seq<char>,
    end: Seq<char>,
    ast: bool,
    now: Seq<char>,
)
    requires
        0 <= k < entries.len(),
        is_entry_of(entries, entries[k].path, k),
        expected is None || expected == Some(entries[k].hash),
        is_one_line(line),
        is_line_end(end),
    ensures
        ({
            let plan = commands::set_plan(
                repository,
                entries,
                entries[k].path,
                expected,
                line + end,
                ast,
                now,
            );
            if ast && entries[k].kind != Kind::File {
                plan matches Err(error) && error.code == 1
            } else {
                plan matches Ok(p) && p.note.path == entries[k].path && p.note.kind
                    == entries[k].kind && p.note.hash == entries[k].hash && p.note.note == line
            }
        }),
{
    law_lines_are_accepted(line, end);
    lemma_entry_found(entries, entries[k].path, 0, k);
}

/// `set` refuses everything else as invalid input: a path that is not in the tree, content other
/// than the one that was expected, and a text that is no note.
pub proof fn law_set_refuses(
    repository: Seq<char>,
    entries: Seq<EntryModel>,
    path: Seq<char>,
    expected: Option<Seq<char>>,
    raw: Seq<char>,
    ast: bool,
    now: Seq<char>,
)
    ensures
        ({
            let plan = commands::set_plan(repository, entries, path, expected, raw, ast, now);
            &&& plan matches Err(error) ==> error.code == 1
            &&& (forall|k: int| 0 <= k < entries.len() ==> (#[trigger] entries[k]).path != path)
                ==> plan is Err
            &&& forall|k: int|
                #[trigger] is_entry_of(entries, path, k) && expected is Some && expected->0
                    != entries[k].hash ==> plan is Err
            &&& annotate::valid_note(raw) is Err ==> plan is Err
        }),
{
    scope::lemma_entry_from(entries, path, 0);
    law_other_texts_are_refused(raw);
    assert forall|k: int|
        #[trigger] is_entry_of(entries, path, k) && expected is Some && expected->0
            != entries[k].hash implies commands::set_plan(
        repository,
        entries,
        path,
        expected,
        raw,
        ast,
        now,
    ) is Err by {
        lemma_entry_found(entries, path, 0, k);
    }
}

// ---------------------------------------------------------------------------------------------
// `member-set`
// ---------------------------------------------------------------------------------------------

/// Whether the `k`-th member is the first one with this symbol.
pub open spec fn is_member_of(members: Seq<MemberModel>, symbol: Seq<char>, k: int) -> bool {
    0 <= k < members.len() && members[k].symbol == symbol && forall|j: int|
        0 <= j < k ==> (#[trigger] members[j]).symbol != symbol
}

pub proof fn lemma_member_found(members: Seq<MemberModel>, symbol: Seq<char>, i: int, k: int)
    requires
        is_member_of(members, symbol, k),
        0 <= i <= k,
    ensures
        annotate::member_from(members, symbol, i) == Some(members[k]),
    decreases k - i,
{
    if i < k {
        assert(members[i].symbol != symbol);
        lemma_member_found(members, symbol, i + 1, k);
    }
}

pub proof fn lemma_member_absent(members: Seq<MemberModel>, symbol: Seq<char>, i: int)
    requires
        0 <= i,
        forall|k: int| i <= k < members.len() ==> (#[trigger] members[k]).symbol != symbol,
    ensures
        annotate::member_from(members, symbol, i) is None,
    decreases members.len() - i,
{
    if i < members.len() {
        assert(members[i].symbol != symbol);
        lemma_member_absent(members, symbol, i + 1);
    }
}

/// Whether a member note binds a text to a declaration of a file, as it is now.
pub open spec fn is_note_on(
    note: NewMemberNoteModel,
    path: Seq<char>,
    member: MemberModel,
    text: Seq<char>,
) -> bool {
    &&& note.path == path
    &&& note.symbol == member.symbol
    &&& note.symbol_kind == member.symbol_kind
    &&& note.name == member.name
    &&& note.qualified_name == member.qualified_name
    &&& note.start_line == member.start_line
    &&& note.end_line == member.end_line
    &&& note.hash == member.hash
    &&& note.note == text
}

/// `member-set` writes what it is asked to: for a declaration of the file, any line that is not
/// blank, guarded by no hash or by the current one, is bound to that declaration.
pub proof fn law_member_set_writes_the_note(
    path: Seq<char>,
    members: Seq<MemberModel>,
    k: int,
    expected: Option<Seq<char>>,
    line: Seq<char>,
    end: Seq<char>,
)
    requires
        0 <= k < members.len(),
        is_member_of(members, members[k].symbol, k),
        expected is None || expected == Some(members[k].hash),
        is_one_line(line),
        is_line_end(end),
    ensures
        commands::member_set_plan(
            path,
            members,
            members[k].symbol,
            expected,
            line + end,
        ) matches Ok(note) && is_note_on(note, path, members[k], line),
{
    law_lines_are_accepted(line, end);
    lemma_member_found(members, members[k].symbol, 0, k);
}

/// `member-set` refuses everything else as invalid input.
pub proof fn law_member_set_refuses(
    path: Seq<char>,
    members: Seq<MemberModel>,
    symbol: Seq<char>,
    expected: Option<Seq<char>>,
    raw: Seq<char>,
)
    ensures
        ({
            let plan = commands::member_set_plan(path, members, symbol, expected, raw);
            &&& plan matches Err(error) ==> error.code == 1
            &&& (forall|k: int| 0 <= k < members.len() ==> (#[trigger] members[k]).symbol
                != symbol) ==> plan is Err
            &&& forall|k: int|
                #[trigger] is_member_of(members, symbol, k) && expected is Some && expected->0
                    != members[k].hash ==> plan is Err
            &&& annotate::valid_note(raw) is Err ==> plan is Err
        }),
{
    law_other_texts_are_refused(raw);
    let plan = commands::member_set_plan(path, members, symbol, expected, raw);
    if forall|k: int| 0 <= k < members.len() ==> (#[trigger] members[k]).symbol != symbol {
        lemma_member_absent(members, symbol, 0);
    }
    assert forall|k: int|
        #[trigger] is_member_of(members, symbol, k) && expected is Some && expected->0
            != members[k].hash implies plan is Err by {
        lemma_member_found(members, symbol, 0, k);
    }
}

// ---------------------------------------------------------------------------------------------
// `import`
// ---------------------------------------------------------------------------------------------

/// Whether a record asks for a note that can be written: its path is that of an entry and spelled
/// as such, it names the current content, and its note is one line.
pub open spec fn is_importable(entries: Seq<EntryModel>, record: ImportRecordModel) -> bool {
    &&& paths::record_path(record.path) is Ok
    &&& exists|k: int|
        #[trigger] is_entry_of(entries, record.path, k) && entries[k].hash == record.hash
    &&& exists|line: Seq<char>, end: Seq<char>|
        is_one_line(line) && is_line_end(end) && record.note == #[trigger] (line + end)
}

/// Whether a note is what a record asks for.
pub open spec fn is_note_of(
    entries: Seq<EntryModel>,
    record: ImportRecordModel,
    note: NewNoteModel,
) -> bool {
    &&& note.path == record.path
    &&& note.hash == record.hash
    &&& is_one_line(note.note)
    &&& exists|end: Seq<char>| is_line_end(end) && record.note == #[trigger] (note.note + end)
    &&& exists|k: int| #[trigger] is_entry_of(entries, record.path, k) && entries[k].kind
        == note.kind
}

/// Whether all items are records that can be written, no two of them for the same path.
pub open spec fn is_good_batch(
    entries: Seq<EntryModel>,
    items: Seq<Result<ImportRecordModel, Seq<char>>>,
) -> bool {
    &&& forall|i: int|
        0 <= i < items.len() ==> (#[trigger] items[i]) is Ok && is_importable(
            entries,
            items[i]->Ok_0,
        )
    &&& forall|i: int, j: int|
        0 <= i < j < items.len() ==> (#[trigger] items[i])->Ok_0.path != (
        #[trigger] items[j])->Ok_0.path
}

proof fn lemma_record(
    entries: Seq<EntryModel>,
    seen: Set<Seq<char>>,
    index: nat,
    record: ImportRecordModel,
)
    requires
        is_importable(entries, record),
        !seen.contains(record.path),
    ensures
        annotate::record_note(
            entries,
            seen,
            index,
            Ok(record),
        ) matches Ok(note) && is_note_of(entries, record, note),
{
    paths::law_record_paths_are_kept(record.path);
    let k = choose|k: int|
        #[trigger] is_entry_of(entries, record.path, k) && entries[k].hash == record.hash;
    lemma_entry_found(entries, record.path, 0, k);
    let (line, end) = choose|line: Seq<char>, end: Seq<char>|
        is_one_line(line) && is_line_end(end) && record.note == #[trigger] (line + end);
    law_lines_are_accepted(line, end);
    let note = annotate::record_note(entries, seen, index, Ok(record))->Ok_0;
    assert(note.note == line);
    assert(record.note == note.note + end);
    assert(is_entry_of(entries, record.path, k));
}

proof fn lemma_batch(
    entries: Seq<EntryModel>,
    items: Seq<Result<ImportRecordModel, Seq<char>>>,
    notes: Seq<NewNoteModel>,
)
    requires
        is_good_batch(entries, items),
        notes.len() <= items.len(),
        forall|i: int|
            0 <= i < notes.len() ==> is_note_of(entries, items[i]->Ok_0, #[trigger] notes[i]),
    ensures
        annotate::batch_from(entries, items, notes) matches Ok(all) && all.len() == items.len()
            && forall|i: int|
            0 <= i < all.len() ==> is_note_of(entries, items[i]->Ok_0, #[trigger] all[i]),
    decreases items.len() - notes.len(),
{
    if notes.len() < items.len() {
        let at = notes.len() as int;
        let record = items[at]->Ok_0;
        assert(items[at] is Ok && is_importable(entries, record));
        let seen = annotate::note_paths(notes);
        assert(!seen.contains(record.path)) by {
            if seen.contains(record.path) {
                let k = choose|k: int|
                    0 <= k < notes.len() && (#[trigger] notes[k]).path == record.path;
                assert(is_note_of(entries, items[k]->Ok_0, notes[k]));
                assert(items[k]->Ok_0.path != items[at]->Ok_0.path);
            }
        }
        lemma_record(entries, seen, notes.len(), record);
        let note = annotate::record_note(entries, seen, notes.len(), items[at])->Ok_0;
        let more = notes.push(note);
        assert forall|i: int| 0 <= i < more.len() implies is_note_of(
            entries,
            items[i]->Ok_0,
            #[trigger] more[i],
        ) by {
            if i < at {
                assert(more[i] == notes[i]);
            }
        }
        lemma_batch(entries, items, more);
    }
}

/// A batch of records that can all be written is written whole: one note for each record, in their
/// order, each with the path, the content and the line of its record.
pub proof fn law_good_batches_are_imported(
    entries: Seq<EntryModel>,
    items: Seq<Result<ImportRecordModel, Seq<char>>>,
)
    requires
        is_good_batch(entries, items),
    ensures
        annotate::batch_from(entries, items, Seq::empty()) matches Ok(notes) && notes.len()
            == items.len() && forall|i: int|
            0 <= i < notes.len() ==> is_note_of(entries, items[i]->Ok_0, #[trigger] notes[i]),
{
    lemma_batch(entries, items, Seq::empty());
}

/// One record that cannot be written is enough for nothing to be written at all, and the fault is
/// the caller's.
pub proof fn law_bad_batches_are_refused(
    entries: Seq<EntryModel>,
    items: Seq<Result<ImportRecordModel, Seq<char>>>,
)
    ensures
        annotate::batch_from(entries, items, Seq::empty()) is Ok <==> is_good_batch(entries, items),
        annotate::batch_from(entries, items, Seq::empty()) matches Err(error) ==> error.code == 1,
{
    if is_good_batch(entries, items) {
        law_good_batches_are_imported(entries, items);
    }
    lemma_refusal(entries, items, Seq::empty());
}

proof fn lemma_refusal(
    entries: Seq<EntryModel>,
    items: Seq<Result<ImportRecordModel, Seq<char>>>,
    notes: Seq<NewNoteModel>,
)
    requires
        notes.len() <= items.len(),
        is_good_batch(entries, items.take(notes.len() as int)),
        forall|i: int|
            0 <= i < notes.len() ==> (#[trigger] notes[i]).path == items[i]->Ok_0.path,
    ensures
        annotate::batch_from(entries, items, notes) is Ok ==> is_good_batch(entries, items),
        annotate::batch_from(entries, items, notes) matches Err(error) ==> error.code == 1,
    decreases items.len() - notes.len(),
{
    let at = notes.len() as int;
    if at >= items.len() {
        assert(items.take(at) =~= items);
    } else {
        let seen = annotate::note_paths(notes);
        let item = items[at];
        let result = annotate::record_note(entries, seen, notes.len(), item);
        if item is Ok {
            let record = item->Ok_0;
            paths::law_record_paths_are_kept(record.path);
            law_other_texts_are_refused(record.note);
            scope::lemma_entry_from(entries, record.path, 0);
            if result is Ok {
                lemma_first_entry(entries, record.path, 0);
                let k = choose|k: int|
                    #[trigger] is_entry_of(entries, record.path, k);
                lemma_entry_found(entries, record.path, 0, k);
                assert(is_importable(entries, record));
                let more = notes.push(result->Ok_0);
                let head = items.take(at + 1);
                assert forall|i: int, j: int| 0 <= i < j < head.len() implies (
                #[trigger] head[i])->Ok_0.path != (#[trigger] head[j])->Ok_0.path by {
                    assert(items.take(at)[i] == head[i]);
                    if j < at {
                        assert(items.take(at)[j] == head[j]);
                    } else if head[i]->Ok_0.path == record.path {
                        assert(notes[i].path == record.path);
                        assert(seen.contains(record.path));
                    }
                }
                assert forall|i: int| 0 <= i < head.len() implies (#[trigger] head[i]) is Ok
                    && is_importable(entries, head[i]->Ok_0) by {
                    if i < at {
                        assert(items.take(at)[i] == head[i]);
                    }
                }
                lemma_refusal(entries, items, more);
            }
        }
    }
}

proof fn lemma_first_entry(entries: Seq<EntryModel>, path: Seq<char>, i: int)
    requires
        0 <= i,
        scope::entry_from(entries, path, i) is Some,
        forall|j: int| 0 <= j < i ==> (#[trigger] entries[j]).path != path,
    ensures
        exists|k: int| #[trigger] is_entry_of(entries, path, k),
    decreases entries.len() - i,
{
    if entries[i].path == path {
        assert(is_entry_of(entries, path, i));
    } else {
        lemma_first_entry(entries, path, i + 1);
    }
}

} // verus!
