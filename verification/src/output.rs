//! Status computation, the shape of the JSON envelopes, and text rendering.
use crate::ast::{Member, MemberModel};
use crate::order;
use crate::repo;
use crate::repo::{Entry, EntryModel, Kind, Repo};
use crate::store::{
    MemberVersion, MemberVersionModel, NewMemberNote, NewMemberNoteModel, NewNote, NewNoteModel,
    NoteVersion, NoteVersionModel,
};
use crate::text;
use crate::{CmdError, CmdErrorModel, JSON_VERSION, PROGRAM};
use std::cmp::Ordering;
use vstd::prelude::*;

verus! {

/// Freshness of a note relative to the current content hash.
#[derive(Clone, Copy, Debug, PartialEq, Eq, Structural)]
pub enum Status {
    /// A note exists for exactly this path, kind and content hash.
    Fresh,
    /// Notes exist for this path and kind, but not for the current hash.
    Stale,
    /// No note has ever been written for this path and kind.
    Missing,
}

/// Stable lowercase name of a status.
pub open spec fn status_text(status: Status) -> Seq<char> {
    match status {
        Status::Fresh => "fresh"@,
        Status::Stale => "stale"@,
        Status::Missing => "missing"@,
    }
}

impl Status {
    /// Stable lowercase name used in output and JSON.
    pub fn as_str(self) -> (r: &'static str)
        ensures
            r@ == status_text(self),
    {
        match self {
            Status::Fresh => "fresh",
            Status::Stale => "stale",
            Status::Missing => "missing",
        }
    }
}

/// The latest note recorded for a different content hash.
#[derive(Debug)]
pub struct Previous {
    /// Hash the previous note belongs to.
    pub hash: String,
    /// One-line note text.
    pub note: String,
    /// Timestamp of the previous note.
    pub updated_at: String,
}

/// Model of [`Previous`].
#[verifier::ext_equal]
pub struct PreviousModel {
    pub hash: Seq<char>,
    pub note: Seq<char>,
    pub updated_at: Seq<char>,
}

impl DeepView for Previous {
    type V = PreviousModel;

    open spec fn deep_view(&self) -> PreviousModel {
        PreviousModel {
            hash: self.hash@,
            note: self.note@,
            updated_at: self.updated_at@,
        }
    }
}

impl Clone for Previous {
    fn clone(&self) -> (r: Previous)
        ensures
            r.deep_view() == self.deep_view(),
    {
        Previous {
            hash: self.hash.clone(),
            note: self.note.clone(),
            updated_at: self.updated_at.clone(),
        }
    }
}

/// A note entry as rendered in JSON and text output.
#[derive(Debug)]
pub struct EntryView {
    /// Repository-root relative path (`"."` for the root directory).
    pub path: String,
    /// Entry kind.
    pub kind: Kind,
    /// Current content hash.
    pub hash: String,
    /// Freshness of the note for the current hash.
    pub status: Status,
    /// Note text for the current hash, when fresh.
    pub note: Option<String>,
    /// Hash the displayed note belongs to, when one is displayed.
    pub note_hash: Option<String>,
    /// Timestamp of the displayed note, when one is displayed.
    pub note_updated_at: Option<String>,
    /// Latest historical note, present only for stale entries.
    pub previous: Option<Previous>,
}

/// Model of [`EntryView`].
#[verifier::ext_equal]
pub struct EntryViewModel {
    pub path: Seq<char>,
    pub kind: Kind,
    pub hash: Seq<char>,
    pub status: Status,
    pub note: Option<Seq<char>>,
    pub note_hash: Option<Seq<char>>,
    pub note_updated_at: Option<Seq<char>>,
    pub previous: Option<PreviousModel>,
}

impl DeepView for EntryView {
    type V = EntryViewModel;

    open spec fn deep_view(&self) -> EntryViewModel {
        EntryViewModel {
            path: self.path@,
            kind: self.kind,
            hash: self.hash@,
            status: self.status,
            note: self.note.deep_view(),
            note_hash: self.note_hash.deep_view(),
            note_updated_at: self.note_updated_at.deep_view(),
            previous: self.previous.deep_view(),
        }
    }
}

impl Clone for EntryView {
    fn clone(&self) -> (r: EntryView)
        ensures
            r.deep_view() == self.deep_view(),
    {
        EntryView {
            path: self.path.clone(),
            kind: self.kind,
            hash: self.hash.clone(),
            status: self.status,
            note: self.note.clone(),
            note_hash: self.note_hash.clone(),
            note_updated_at: self.note_updated_at.clone(),
            previous: self.previous.clone(),
        }
    }
}

/// One AST member of a file, paired with the stored member notes of its symbol.
#[derive(Debug)]
pub struct MemberView {
    /// Repository-root relative path of the file holding the declaration.
    pub path: String,
    /// Symbol key, `<symbol-kind>:<qualified name>:<ordinal>`.
    pub symbol: String,
    /// treenotes member kind.
    pub symbol_kind: String,
    /// Declared name as written.
    pub name: String,
    /// Name qualified by its container chain.
    pub qualified_name: String,
    /// 1-based first line of the declaration in the current file.
    pub start_line: usize,
    /// 1-based last line of the declaration in the current file.
    pub end_line: usize,
    /// Current `tnt2:member:<hex>` hash of the declaration.
    pub hash: String,
    /// Freshness of the member note for the current hash.
    pub status: Status,
    /// Note text for the current hash, when fresh.
    pub note: Option<String>,
    /// Hash the displayed note belongs to, when one is displayed.
    pub note_hash: Option<String>,
    /// Timestamp of the displayed note, when one is displayed.
    pub note_updated_at: Option<String>,
    /// Latest historical note, present only for stale members.
    pub previous: Option<Previous>,
}

/// Model of [`MemberView`].
#[verifier::ext_equal]
pub struct MemberViewModel {
    pub path: Seq<char>,
    pub symbol: Seq<char>,
    pub symbol_kind: Seq<char>,
    pub name: Seq<char>,
    pub qualified_name: Seq<char>,
    pub start_line: usize,
    pub end_line: usize,
    pub hash: Seq<char>,
    pub status: Status,
    pub note: Option<Seq<char>>,
    pub note_hash: Option<Seq<char>>,
    pub note_updated_at: Option<Seq<char>>,
    pub previous: Option<PreviousModel>,
}

impl DeepView for MemberView {
    type V = MemberViewModel;

    open spec fn deep_view(&self) -> MemberViewModel {
        MemberViewModel {
            path: self.path@,
            symbol: self.symbol@,
            symbol_kind: self.symbol_kind@,
            name: self.name@,
            qualified_name: self.qualified_name@,
            start_line: self.start_line,
            end_line: self.end_line,
            hash: self.hash@,
            status: self.status,
            note: self.note.deep_view(),
            note_hash: self.note_hash.deep_view(),
            note_updated_at: self.note_updated_at.deep_view(),
            previous: self.previous.deep_view(),
        }
    }
}

impl Clone for MemberView {
    fn clone(&self) -> (r: MemberView)
        ensures
            r.deep_view() == self.deep_view(),
    {
        MemberView {
            path: self.path.clone(),
            symbol: self.symbol.clone(),
            symbol_kind: self.symbol_kind.clone(),
            name: self.name.clone(),
            qualified_name: self.qualified_name.clone(),
            start_line: self.start_line,
            end_line: self.end_line,
            hash: self.hash.clone(),
            status: self.status,
            note: self.note.clone(),
            note_hash: self.note_hash.clone(),
            note_updated_at: self.note_updated_at.clone(),
            previous: self.previous.clone(),
        }
    }
}

// ---------------------------------------------------------------------------------------------
// Status
// ---------------------------------------------------------------------------------------------

/// The first version, from the `i`-th on, of exactly this kind and content.
pub open spec fn matching(
    versions: Seq<NoteVersionModel>,
    kind: Kind,
    hash: Seq<char>,
    i: int,
) -> Option<NoteVersionModel>
    decreases versions.len() - i,
{
    if i < 0 || i >= versions.len() {
        None
    } else if versions[i].kind == kind && versions[i].hash == hash {
        Some(versions[i])
    } else {
        matching(versions, kind, hash, i + 1)
    }
}

/// The first version, from the `i`-th on, of this kind.
pub open spec fn latest(versions: Seq<NoteVersionModel>, kind: Kind, i: int) -> Option<
    NoteVersionModel,
>
    decreases versions.len() - i,
{
    if i < 0 || i >= versions.len() {
        None
    } else if versions[i].kind == kind {
        Some(versions[i])
    } else {
        latest(versions, kind, i + 1)
    }
}

/// An entry paired with the stored versions of its path, newest first: fresh with the note for its
/// current content, stale with the latest note of its kind as the previous one, or missing.
pub open spec fn entry_view(entry: EntryModel, versions: Seq<NoteVersionModel>) -> EntryViewModel {
    let plain = EntryViewModel {
        path: entry.path,
        kind: entry.kind,
        hash: entry.hash,
        status: Status::Missing,
        note: None,
        note_hash: None,
        note_updated_at: None,
        previous: None,
    };
    match matching(versions, entry.kind, entry.hash, 0) {
        Some(version) => EntryViewModel {
            status: Status::Fresh,
            note: Some(version.note),
            note_hash: Some(version.hash),
            note_updated_at: Some(version.updated_at),
            ..plain
        },
        None => match latest(versions, entry.kind, 0) {
            Some(version) => EntryViewModel {
                status: Status::Stale,
                previous: Some(
                    PreviousModel {
                        hash: version.hash,
                        note: version.note,
                        updated_at: version.updated_at,
                    },
                ),
                ..plain
            },
            None => plain,
        },
    }
}

/// The first version, from the `i`-th on, of exactly this content.
pub open spec fn member_matching(
    versions: Seq<MemberVersionModel>,
    hash: Seq<char>,
    i: int,
) -> Option<MemberVersionModel>
    decreases versions.len() - i,
{
    if i < 0 || i >= versions.len() {
        None
    } else if versions[i].hash == hash {
        Some(versions[i])
    } else {
        member_matching(versions, hash, i + 1)
    }
}

/// A member of a file paired with the stored versions of its symbol, newest first.
pub open spec fn member_view(
    path: Seq<char>,
    member: MemberModel,
    versions: Seq<MemberVersionModel>,
) -> MemberViewModel {
    let plain = MemberViewModel {
        path,
        symbol: member.symbol,
        symbol_kind: member.symbol_kind,
        name: member.name,
        qualified_name: member.qualified_name,
        start_line: member.start_line,
        end_line: member.end_line,
        hash: member.hash,
        status: Status::Missing,
        note: None,
        note_hash: None,
        note_updated_at: None,
        previous: None,
    };
    match member_matching(versions, member.hash, 0) {
        Some(version) => MemberViewModel {
            status: Status::Fresh,
            note: Some(version.note),
            note_hash: Some(version.hash),
            note_updated_at: Some(version.updated_at),
            ..plain
        },
        None => if versions.len() > 0 {
            MemberViewModel {
                status: Status::Stale,
                previous: Some(
                    PreviousModel {
                        hash: versions[0].hash,
                        note: versions[0].note,
                        updated_at: versions[0].updated_at,
                    },
                ),
                ..plain
            }
        } else {
            plain
        },
    }
}

fn find_matching<'a>(versions: &'a [NoteVersion], kind: Kind, hash: &str) -> (r: Option<
    &'a NoteVersion,
>)
    ensures
        r.deep_view() == matching(versions.deep_view(), kind, hash@, 0),
{
    let ghost all = versions.deep_view();
    let mut i: usize = 0;
    while i < versions.len()
        invariant
            i <= versions@.len(),
            all == versions.deep_view(),
            matching(all, kind, hash@, 0) == matching(all, kind, hash@, i as int),
        decreases versions@.len() - i,
    {
        assert(all[i as int] == versions@[i as int].deep_view());
        if versions[i].kind == kind && text::same(versions[i].hash.as_str(), hash) {
            return Some(&versions[i]);
        }
        i += 1;
    }
    None
}

fn find_latest<'a>(versions: &'a [NoteVersion], kind: Kind) -> (r: Option<&'a NoteVersion>)
    ensures
        r.deep_view() == latest(versions.deep_view(), kind, 0),
{
    let ghost all = versions.deep_view();
    let mut i: usize = 0;
    while i < versions.len()
        invariant
            i <= versions@.len(),
            all == versions.deep_view(),
            latest(all, kind, 0) == latest(all, kind, i as int),
        decreases versions@.len() - i,
    {
        assert(all[i as int] == versions@[i as int].deep_view());
        if versions[i].kind == kind {
            return Some(&versions[i]);
        }
        i += 1;
    }
    None
}

fn find_member_matching<'a>(versions: &'a [MemberVersion], hash: &str) -> (r: Option<
    &'a MemberVersion,
>)
    ensures
        r.deep_view() == member_matching(versions.deep_view(), hash@, 0),
{
    let ghost all = versions.deep_view();
    let mut i: usize = 0;
    while i < versions.len()
        invariant
            i <= versions@.len(),
            all == versions.deep_view(),
            member_matching(all, hash@, 0) == member_matching(all, hash@, i as int),
        decreases versions@.len() - i,
    {
        assert(all[i as int] == versions@[i as int].deep_view());
        if text::same(versions[i].hash.as_str(), hash) {
            return Some(&versions[i]);
        }
        i += 1;
    }
    None
}

// ---------------------------------------------------------------------------------------------
// Text
// ---------------------------------------------------------------------------------------------

/// A lowercase hexadecimal digit.
pub open spec fn hex_digit(d: int) -> char {
    if d < 10 {
        ('0' as u32 + d) as char
    } else {
        ('a' as u32 + d - 10) as char
    }
}

/// One character inside a JSON string.
pub open spec fn json_escaped(c: char) -> Seq<char> {
    if c == '"' {
        seq!['\\', '"']
    } else if c == '\\' {
        seq!['\\', '\\']
    } else if c == '\u{8}' {
        seq!['\\', 'b']
    } else if c == '\u{c}' {
        seq!['\\', 'f']
    } else if c == '\n' {
        seq!['\\', 'n']
    } else if c == '\r' {
        seq!['\\', 'r']
    } else if c == '\t' {
        seq!['\\', 't']
    } else if c >= ' ' {
        seq![c]
    } else {
        seq!['\\', 'u', '0', '0', hex_digit(c as int / 16), hex_digit(c as int % 16)]
    }
}

/// The characters of a JSON string.
pub open spec fn json_escapes(s: Seq<char>) -> Seq<char>
    decreases s.len(),
{
    if s.len() == 0 {
        s
    } else {
        json_escapes(s.drop_last()) + json_escaped(s.last())
    }
}

/// A JSON string.
pub open spec fn json_string(s: Seq<char>) -> Seq<char> {
    seq!['"'] + json_escapes(s) + seq!['"']
}

/// `serde_json::to_string` of a string: the string in double quotes, with quotes, backslashes and
/// control characters escaped and every other character as it is. Serializing a string cannot
/// fail.
#[verifier::external_body]
fn quote(note: &str) -> (r: String)
    ensures
        r@ == json_string(note@),
{
    serde_json::to_string(note).expect("serializing a string cannot fail")
}

/// The part of a hash text behind its last colon; the whole text when it has none.
pub open spec fn hex_part(hash: Seq<char>) -> Seq<char> {
    hash.skip(text::last_index(hash, ':') + 1)
}

/// The first twelve characters of the hexadecimal part of a hash text.
pub open spec fn short(hash: Seq<char>) -> Seq<char> {
    if hex_part(hash).len() < 12 {
        hex_part(hash)
    } else {
        hex_part(hash).take(12)
    }
}

/// Hex part of a hash string (`tnt1:file:<hex>` -> `<hex>`).
pub fn hex_of(hash: &str) -> (r: &str)
    ensures
        r@ == hex_part(hash@),
{
    match text::rsplit_once(hash, ':') {
        Some((_, hex)) => hex,
        None => {
            proof {
                text::lemma_last_index(hash@, ':');
                assert(hash@.skip(0) =~= hash@);
            }
            hash
        },
    }
}

/// Hex part of a hash string, truncated for display.
pub fn short_hash(hash: &str) -> (r: String)
    ensures
        r@ == short(hash@),
{
    let hex = hex_of(hash);
    if hex.unicode_len() < 12 {
        hex.to_owned()
    } else {
        let head = hex.substring_char(0, 12);
        assert(head@ =~= hex@.take(12));
        head.to_owned()
    }
}

/// The text of a status line: what it is about, its kind, its hash and its status, then the note
/// when there is one.
pub open spec fn status_line(
    subject: Seq<char>,
    kind: Seq<char>,
    hash: Seq<char>,
    status: Status,
    note: Option<Seq<char>>,
) -> Seq<char> {
    let head = subject + " ["@ + kind + "] "@ + short(hash) + " "@ + status_text(status);
    match note {
        Some(t) => head + " "@ + json_string(t),
        None => head,
    }
}

fn status_line_text(
    subject: &str,
    kind: &str,
    hash: &str,
    status: Status,
    note: &Option<String>,
) -> (r: String)
    ensures
        r@ == status_line(subject@, kind@, hash@, status, note.deep_view()),
{
    let mut out = subject.to_owned();
    out.append(" [");
    out.append(kind);
    out.append("] ");
    out.append(short_hash(hash).as_str());
    out.append(" ");
    out.append(status.as_str());
    if let Some(t) = note {
        out.append(" ");
        out.append(quote(t.as_str()).as_str());
    }
    out
}

/// The text that names a previous note, labelled as not current.
pub open spec fn previous_text(previous: PreviousModel) -> Seq<char> {
    "previous (stale, not current): "@ + previous.hash + " "@ + json_string(previous.note)
}

/// The text that names the previous note, where there is one.
pub open spec fn previous_line(previous: Option<PreviousModel>) -> Option<Seq<char>> {
    match previous {
        Some(p) => Some(previous_text(p)),
        None => None,
    }
}

fn previous_line_text(previous: &Option<Previous>) -> (r: Option<String>)
    ensures
        r.deep_view() == previous_line(previous.deep_view()),
{
    match previous {
        Some(p) => {
            let mut out = "previous (stale, not current): ".to_owned();
            out.append(p.hash.as_str());
            out.append(" ");
            out.append(quote(p.note.as_str()).as_str());
            Some(out)
        },
        None => None,
    }
}

impl MemberViewModel {
    /// The part of the symbol key behind its last colon; `0` when it has none.
    pub open spec fn ordinal(self) -> Seq<char> {
        if text::last_index(self.symbol, ':') < 0 {
            "0"@
        } else {
            self.symbol.skip(text::last_index(self.symbol, ':') + 1)
        }
    }

    /// Label of the declaration.
    pub open spec fn label(self) -> Seq<char> {
        self.name + " "@ + self.symbol_kind + ":"@ + self.ordinal()
    }

    /// Body of the declaration.
    pub open spec fn body(self) -> Seq<char> {
        status_line(self.label(), self.symbol_kind, self.hash, self.status, self.note)
    }
}

impl EntryViewModel {
    /// Body of the entry.
    pub open spec fn body(self) -> Seq<char> {
        status_line(self.path, repo::kind_name(self.kind), self.hash, self.status, self.note)
    }
}

impl MemberView {
    /// Combine a freshly parsed member with the stored member notes of its symbol.
    pub fn build(path: &str, member: &Member, versions: &[MemberVersion]) -> (r: MemberView)
        ensures
            r.deep_view() == member_view(path@, member.deep_view(), versions.deep_view()),
    {
        let matching = find_member_matching(versions, member.hash.as_str());
        let mut view = MemberView {
            path: path.to_owned(),
            symbol: member.symbol.clone(),
            symbol_kind: member.symbol_kind.clone(),
            name: member.name.clone(),
            qualified_name: member.qualified_name.clone(),
            start_line: member.start_line,
            end_line: member.end_line,
            hash: member.hash.clone(),
            status: Status::Missing,
            note: None,
            note_hash: None,
            note_updated_at: None,
            previous: None,
        };
        match matching {
            Some(version) => {
                view.status = Status::Fresh;
                view.note = Some(version.note.clone());
                view.note_hash = Some(version.hash.clone());
                view.note_updated_at = Some(version.updated_at.clone());
            },
            None => {
                if versions.len() > 0 {
                    assert(versions.deep_view()[0] == versions@[0].deep_view());
                    view.status = Status::Stale;
                    view.previous = Some(
                        Previous {
                            hash: versions[0].hash.clone(),
                            note: versions[0].note.clone(),
                            updated_at: versions[0].updated_at.clone(),
                        },
                    );
                }
            },
        }
        view
    }

    /// Short display form of the current hash (12 hex characters).
    pub fn short_hash(&self) -> (r: String)
        ensures
            r@ == short(self.hash@),
    {
        short_hash(self.hash.as_str())
    }

    /// Ordinal of this symbol, the last `:`-separated component of the symbol key.
    pub fn ordinal(&self) -> (r: &str)
        ensures
            r@ == self.deep_view().ordinal(),
    {
        match text::rsplit_once(self.symbol.as_str(), ':') {
            Some((_, ordinal)) => ordinal,
            None => "0",
        }
    }

    /// Label of one declaration, the form used wherever a label is needed.
    pub fn label(&self) -> (r: String)
        ensures
            r@ == self.deep_view().label(),
    {
        let mut out = self.name.clone();
        out.append(" ");
        out.append(self.symbol_kind.as_str());
        out.append(":");
        out.append(self.ordinal());
        out
    }

    /// Body of one declaration: label, member kind, hash and status, then the note when fresh.
    pub fn body(&self) -> (r: String)
        ensures
            r@ == self.deep_view().body(),
    {
        let label = self.label();
        status_line_text(
            label.as_str(),
            self.symbol_kind.as_str(),
            self.hash.as_str(),
            self.status,
            &self.note,
        )
    }

    /// Previous-note body of a stale declaration, labelled as not current.
    pub fn previous_body(&self) -> (r: Option<String>)
        ensures
            r.deep_view() == previous_line(self.deep_view().previous),
    {
        previous_line_text(&self.previous)
    }

    /// Text line for one member, indented one level below its file.
    pub fn text_line(&self, scope: &str) -> (r: String)
        requires
            repo::depth_below(scope@, self.path@) >= 0,
        ensures
            r@ == text::repeated(
                "    "@,
                (repo::depth_below(scope@, self.path@) + 1) as nat,
            ) + self.deep_view().body(),
    {
        let mut out = text::repeat_text("    ", repo::depth_within(scope, self.path.as_str()));
        out.append("    ");
        out.append(self.body().as_str());
        out
    }

    /// Text line naming the previous note of a stale member, labelled as not current.
    pub fn text_previous_line(&self, scope: &str) -> (r: Option<String>)
        requires
            repo::depth_below(scope@, self.path@) >= 0,
        ensures
            r.deep_view() == (match previous_line(self.deep_view().previous) {
                Some(line) => Some(
                    text::repeated(
                        "    "@,
                        (repo::depth_below(scope@, self.path@) + 2) as nat,
                    ) + line,
                ),
                None => None,
            }),
    {
        let mut out = text::repeat_text("    ", repo::depth_within(scope, self.path.as_str()));
        proof {
            reveal_with_fuel(text::repeated, 3);
        }
        out.append("    ");
        out.append("    ");
        match self.previous_body() {
            Some(body) => {
                out.append(body.as_str());
                Some(out)
            },
            None => None,
        }
    }
}

impl EntryView {
    /// Combine a current tree entry with the stored note versions of its path.
    pub fn build(entry: &Entry, versions: &[NoteVersion]) -> (r: EntryView)
        ensures
            r.deep_view() == entry_view(entry.deep_view(), versions.deep_view()),
    {
        let mut view = EntryView {
            path: entry.path.clone(),
            kind: entry.kind,
            hash: entry.hash.clone(),
            status: Status::Missing,
            note: None,
            note_hash: None,
            note_updated_at: None,
            previous: None,
        };
        match find_matching(versions, entry.kind, entry.hash.as_str()) {
            Some(version) => {
                view.status = Status::Fresh;
                view.note = Some(version.note.clone());
                view.note_hash = Some(version.hash.clone());
                view.note_updated_at = Some(version.updated_at.clone());
            },
            None => match find_latest(versions, entry.kind) {
                Some(version) => {
                    view.status = Status::Stale;
                    view.previous = Some(
                        Previous {
                            hash: version.hash.clone(),
                            note: version.note.clone(),
                            updated_at: version.updated_at.clone(),
                        },
                    );
                },
                None => {},
            },
        }
        view
    }

    /// Status as it appears in JSON.
    pub fn status_name(&self) -> (r: &'static str)
        ensures
            r@ == status_text(self.status),
    {
        self.status.as_str()
    }

    /// Short display form of the current hash (12 hex characters).
    pub fn short_hash(&self) -> (r: String)
        ensures
            r@ == short(self.hash@),
    {
        short_hash(self.hash.as_str())
    }

    /// Body of one entry: path, kind, hash, status, then the note when fresh.
    fn body(&self) -> (r: String)
        ensures
            r@ == self.deep_view().body(),
    {
        status_line_text(
            self.path.as_str(),
            self.kind.as_str(),
            self.hash.as_str(),
            self.status,
            &self.note,
        )
    }

    /// Body of one entry inside the text tree.
    pub fn tree_body(&self) -> (r: String)
        ensures
            r@ == self.deep_view().body(),
    {
        self.body()
    }

    /// Text line for one entry, indented relative to a scope, for listings that are not a tree.
    pub fn text_line(&self, scope: &str) -> (r: String)
        requires
            repo::depth_below(scope@, self.path@) >= 0,
        ensures
            r@ == text::repeated("    "@, repo::depth_below(scope@, self.path@) as nat)
                + self.deep_view().body(),
    {
        let mut out = text::repeat_text("    ", repo::depth_within(scope, self.path.as_str()));
        out.append(self.body().as_str());
        out
    }

    /// Previous-note body of a stale entry, labelled as not current.
    pub fn previous_body(&self) -> (r: Option<String>)
        ensures
            r.deep_view() == previous_line(self.deep_view().previous),
    {
        previous_line_text(&self.previous)
    }

    /// Text line naming the previous note of a stale entry, labelled as not current.
    pub fn text_previous_line(&self, scope: &str) -> (r: Option<String>)
        requires
            repo::depth_below(scope@, self.path@) >= 0,
        ensures
            r.deep_view() == (match previous_line(self.deep_view().previous) {
                Some(line) => Some(
                    text::repeated(
                        "    "@,
                        (repo::depth_below(scope@, self.path@) + 1) as nat,
                    ) + line,
                ),
                None => None,
            }),
    {
        let mut out = text::repeat_text("    ", repo::depth_within(scope, self.path.as_str()));
        out.append("    ");
        match self.previous_body() {
            Some(body) => {
                out.append(body.as_str());
                Some(out)
            },
            None => None,
        }
    }
}

/// Sort key: entry depth relative to the scope.
pub fn depth_key(scope: &str, path: &str) -> (r: usize)
    requires
        repo::depth_below(scope@, path@) >= 0,
    ensures
        r == repo::depth_below(scope@, path@),
{
    repo::depth_within(scope, path)
}

// ---------------------------------------------------------------------------------------------
// The text tree
// ---------------------------------------------------------------------------------------------

/// One node of the text tree, in the order it should be drawn.
#[derive(Debug)]
pub enum TreeChild {
    /// A file or directory entry, as it appears in `entries`, with its hash and note status.
    Entry(EntryView),
    /// A path that is *not* part of the listing and is drawn only to locate something below it
    /// (an ancestor directory, or a file that holds a listed declaration). It carries no hash and
    /// no status, because nothing about it is unfinished.
    Context(String),
    /// A declaration inside the file named by the node it hangs from.
    Member(MemberView),
    /// Extra information about the node it hangs from, such as a stale previous note.
    Detail(String),
}

/// Model of a [`TreeChild`].
pub enum TreeChildModel {
    Entry(EntryViewModel),
    Context(Seq<char>),
    Member(MemberViewModel),
    Detail(Seq<char>),
}

impl DeepView for TreeChild {
    type V = TreeChildModel;

    open spec fn deep_view(&self) -> TreeChildModel {
        match self {
            TreeChild::Entry(view) => TreeChildModel::Entry(view.deep_view()),
            TreeChild::Context(path) => TreeChildModel::Context(path@),
            TreeChild::Member(view) => TreeChildModel::Member(view.deep_view()),
            TreeChild::Detail(line) => TreeChildModel::Detail(line@),
        }
    }
}

/// Body of a node, without any branch decoration.
pub open spec fn body_of(child: TreeChildModel) -> Seq<char> {
    match child {
        TreeChildModel::Entry(view) => view.body(),
        TreeChildModel::Context(path) => "("@ + path + ") [context]"@,
        TreeChildModel::Member(view) => view.body(),
        TreeChildModel::Detail(line) => line,
    }
}

/// The label other nodes name as their ancestor.
pub open spec fn label_of(child: TreeChildModel) -> Seq<char> {
    match child {
        TreeChildModel::Entry(view) => view.path,
        TreeChildModel::Context(path) => path,
        TreeChildModel::Member(view) => view.symbol,
        TreeChildModel::Detail(_) => Seq::empty(),
    }
}

/// Body of one node of the tree, without any branch decoration.
fn node_body(child: &TreeChild) -> (r: String)
    ensures
        r@ == body_of(child.deep_view()),
{
    match child {
        TreeChild::Entry(view) => view.tree_body(),
        TreeChild::Context(path) => {
            let mut out = "(".to_owned();
            out.append(path.as_str());
            out.append(") [context]");
            out
        },
        TreeChild::Member(view) => view.body(),
        TreeChild::Detail(line) => line.clone(),
    }
}

/// The label other nodes name as their ancestor. A detail line is never an ancestor.
pub fn node_label(child: &TreeChild) -> (r: String)
    ensures
        r@ == label_of(child.deep_view()),
{
    match child {
        TreeChild::Entry(view) => view.path.clone(),
        TreeChild::Context(path) => path.clone(),
        TreeChild::Member(view) => view.symbol.clone(),
        TreeChild::Detail(_) => String::new(),
    }
}

/// A node of a tree listing with the label of the node it hangs from.
pub type TreeNode = (Option<Seq<char>>, TreeChildModel);

/// The last of the open levels whose label is `parent`, or -1.
pub open spec fn level_of(labels: Seq<Seq<char>>, parent: Seq<char>) -> int
    decreases labels.len(),
{
    if labels.len() == 0 {
        -1
    } else if labels.last() == parent {
        labels.len() - 1
    } else {
        level_of(labels.drop_last(), parent)
    }
}

/// Whether nothing from `i` on hangs from `parent`.
pub open spec fn no_more(children: Seq<TreeNode>, parent: Seq<char>, i: int) -> bool {
    forall|k: int| i <= k < children.len() ==> (#[trigger] children[k]).0 != Some(parent)
}

/// What is drawn for the levels `1..level+1` above a node: a pipe where more follows, blanks where
/// the level is closed.
pub open spec fn pipes(closes: Seq<bool>, level: int) -> Seq<char>
    decreases level,
{
    if level <= 0 {
        Seq::empty()
    } else {
        pipes(closes, level - 1) + if closes[level] {
            "    "@
        } else {
            "│   "@
        }
    }
}

/// The lines of a tree listing from the `i`-th node on, behind `lines`. `labels` are the labels of
/// the open levels and `closes` says of each whether its node was the last child of its parent.
pub open spec fn drawn_from(
    children: Seq<TreeNode>,
    i: int,
    labels: Seq<Seq<char>>,
    closes: Seq<bool>,
    lines: Seq<Seq<char>>,
) -> Result<Seq<Seq<char>>, CmdErrorModel>
    decreases children.len() - i,
{
    if i < 0 || i >= children.len() {
        Ok(lines)
    } else {
        match children[i].0 {
            None => Err(crate::usage_error("tree listing has a second root entry"@)),
            Some(parent) => {
                let level = level_of(labels, parent);
                if level < 0 {
                    Err(crate::usage_error("tree listing names unknown ancestor "@ + parent))
                } else {
                    let last = no_more(children, parent, i + 1);
                    let connector = if last {
                        "└── "@
                    } else {
                        "├── "@
                    };
                    drawn_from(
                        children,
                        i + 1,
                        labels.take(level + 1).push(label_of(children[i].1)),
                        closes.take(level + 1).push(last),
                        lines.push(pipes(closes, level) + connector + body_of(children[i].1)),
                    )
                }
            },
        }
    }
}

/// The lines of a tree listing.
pub open spec fn drawn(children: Seq<TreeNode>) -> Result<Seq<Seq<char>>, CmdErrorModel> {
    if children.len() == 0 {
        Ok(Seq::empty())
    } else if children[0].0 is Some {
        Err(crate::usage_error("tree listing is missing its root entry"@))
    } else {
        drawn_from(
            children,
            1,
            seq![label_of(children[0].1)],
            seq![false],
            seq![body_of(children[0].1)],
        )
    }
}

fn find_level(labels: &Vec<String>, parent: &str) -> (r: Option<usize>)
    ensures
        match r {
            Some(level) => level == level_of(labels.deep_view(), parent@) && level < labels@.len(),
            None => level_of(labels.deep_view(), parent@) < 0,
        },
{
    let ghost all = labels.deep_view();
    let mut n: usize = labels.len();
    assert(all.take(n as int) =~= all);
    while n > 0
        invariant
            n <= labels@.len(),
            all == labels.deep_view(),
            level_of(all, parent@) == level_of(all.take(n as int), parent@),
        decreases n,
    {
        proof {
            assert(all.take(n as int).drop_last() =~= all.take(n - 1));
            assert(all.take(n as int).last() == labels@[n - 1]@);
        }
        if text::same(labels[n - 1].as_str(), parent) {
            return Some(n - 1);
        }
        n -= 1;
    }
    None
}

fn is_last_child(children: &Vec<(Option<String>, TreeChild)>, parent: &str, from: usize) -> (r:
    bool)
    ensures
        r == no_more(children.deep_view(), parent@, from as int),
{
    let ghost all = children.deep_view();
    let mut k: usize = from;
    while k < children.len()
        invariant
            from <= k,
            all == children.deep_view(),
            forall|j: int| from <= j < k ==> (#[trigger] all[j]).0 != Some(parent@),
        decreases children@.len() - k,
    {
        assert(all[k as int].0 == children@[k as int].0.deep_view());
        if let Some(next) = &children[k].0 {
            if text::same(next.as_str(), parent) {
                assert(all[k as int].0 == Some(parent@));
                return false;
            }
        }
        k += 1;
    }
    true
}

fn draw_pipes(closes: &Vec<bool>, level: usize) -> (r: String)
    requires
        level < closes@.len(),
    ensures
        r@ == pipes(closes@, level as int),
{
    let mut out = String::new();
    let mut above: usize = 0;
    while above < level
        invariant
            above <= level < closes@.len(),
            out@ == pipes(closes@, above as int),
        decreases level - above,
    {
        above += 1;
        if closes[above] {
            out.append("    ");
        } else {
            out.append("│   ");
        }
    }
    out
}

/// Render the requested entries and declarations as one nested ASCII tree.
///
/// Each element names the *closest requested ancestor*, or `None` when nothing in the listing
/// contains it. The first element must have no ancestor: it is the tree root the rest hangs from.
/// An element appears directly below its ancestor; a member is always placed below the file it was
/// parsed from, so no parentage is ever inferred from a declaration's name.
///
/// A file that is not itself listed is still printed when it holds a listed declaration: it
/// appears in parentheses as `(path) [context]`, never with a note status, because nothing about
/// that file is unfinished — it is printed only to say where the declarations below it live.
pub fn build_tree(children: &Vec<(Option<String>, TreeChild)>) -> (r: Result<
    Vec<String>,
    CmdError,
>)
    ensures
        crate::outcome(r) == drawn(children.deep_view()),
{
    let ghost all = children.deep_view();
    let mut lines: Vec<String> = Vec::new();
    assert(lines.deep_view() =~= Seq::<Seq<char>>::empty());
    if children.len() == 0 {
        return Ok(lines);
    }
    assert(all[0] == (children@[0].0.deep_view(), children@[0].1.deep_view()));
    if children[0].0.is_some() {
        return Err(CmdError::usage("tree listing is missing its root entry"));
    }
    let mut labels: Vec<String> = Vec::new();
    let mut closes: Vec<bool> = Vec::new();
    lines.push(node_body(&children[0].1));
    labels.push(node_label(&children[0].1));
    closes.push(false);
    assert(lines.deep_view() =~= seq![body_of(all[0].1)]);
    assert(labels.deep_view() =~= seq![label_of(all[0].1)]);
    assert(closes@ =~= seq![false]);
    let mut i: usize = 1;
    while i < children.len()
        invariant
            1 <= i <= children@.len(),
            all == children.deep_view(),
            labels@.len() == closes@.len(),
            drawn(all) == drawn_from(
                all,
                i as int,
                labels.deep_view(),
                closes@,
                lines.deep_view(),
            ),
        decreases children@.len() - i,
    {
        assert(all[i as int] == (
            children@[i as int].0.deep_view(),
            children@[i as int].1.deep_view(),
        ));
        let open_levels: usize = labels.len();
        match &children[i].0 {
            None => {
                return Err(CmdError::usage("tree listing has a second root entry"));
            },
            Some(parent) => {
                match find_level(&labels, parent.as_str()) {
                    None => {
                        let mut message = "tree listing names unknown ancestor ".to_owned();
                        message.append(parent.as_str());
                        return Err(CmdError::usage(message.as_str()));
                    },
                    Some(level) => {
                        let last = is_last_child(children, parent.as_str(), i + 1);
                        let mut line = draw_pipes(&closes, level);
                        if last {
                            line.append("└── ");
                        } else {
                            line.append("├── ");
                        }
                        line.append(node_body(&children[i].1).as_str());
                        let ghost old_lines = lines.deep_view();
                        let ghost old_labels = labels.deep_view();
                        let ghost drawn_line = line@;
                        lines.push(line);
                        assert(lines.deep_view() =~= old_lines.push(drawn_line));
                        assert(level + 1 <= open_levels);
                        labels.truncate(level + 1);
                        assert(labels.deep_view() =~= old_labels.take(level + 1));
                        let label = node_label(&children[i].1);
                        let ghost label_model = label@;
                        labels.push(label);
                        assert(labels.deep_view() =~= old_labels.take(level + 1).push(label_model));
                        closes.truncate(level + 1);
                        closes.push(last);
                    },
                }
            },
        }
        i += 1;
    }
    Ok(lines)
}

// ---------------------------------------------------------------------------------------------
// Children-first order
// ---------------------------------------------------------------------------------------------

/// The rank of the separator and the rank of the end of a path. Both are below those of all other
/// characters, so components are compared one by one, and what lies below a path comes before it.
pub open spec fn separator_rank() -> int {
    -2
}

pub open spec fn end_rank() -> int {
    -1
}

/// The key of a path other than the root: the ranks of its characters, and the end.
pub open spec fn children_first_key(path: Seq<char>) -> Seq<int> {
    order::ranks(path, separator_rank()).push(end_rank())
}

/// Ordering used by `pending`: descendants before their ancestors, the root last, name order among
/// unrelated paths, component by component.
pub open spec fn children_first_le(a: Seq<char>, b: Seq<char>) -> bool {
    if b == repo::root_path() {
        true
    } else if a == repo::root_path() {
        false
    } else {
        order::lex_le(children_first_key(a), children_first_key(b))
    }
}

/// Whether `a` may stand before `b` in the order of `pending`.
pub fn children_first_before(a: &str, b: &str) -> (r: bool)
    ensures
        r == children_first_le(a@, b@),
{
    if repo::is_root(b) {
        return true;
    }
    if repo::is_root(a) {
        return false;
    }
    let x = text::chars_of(a);
    let y = text::chars_of(b);
    let mut i: usize = 0;
    assert(a@.skip(0) =~= a@);
    assert(b@.skip(0) =~= b@);
    while i < x.len() && i < y.len()
        invariant
            x@ == a@,
            y@ == b@,
            i <= x@.len(),
            i <= y@.len(),
            a@ != repo::root_path(),
            b@ != repo::root_path(),
            children_first_le(a@, b@) == order::lex_le(
                children_first_key(a@.skip(i as int)),
                children_first_key(b@.skip(i as int)),
            ),
        decreases x@.len() - i,
    {
        let m = order::char_rank(x[i], -2);
        let n = order::char_rank(y[i], -2);
        if m != n {
            return m < n;
        }
        proof {
            assert(children_first_key(a@.skip(i as int)).drop_first() =~= children_first_key(
                a@.skip(i + 1),
            ));
            assert(children_first_key(b@.skip(i as int)).drop_first() =~= children_first_key(
                b@.skip(i + 1),
            ));
        }
        i += 1;
    }
    let ghost p = children_first_key(a@.skip(i as int));
    let ghost q = children_first_key(b@.skip(i as int));
    if i < x.len() {
        assert(q =~= seq![end_rank()]);
        assert(p[0] == order::rank(a@[i as int], -2));
        proof {
            order::lemma_char_bounds(a@[i as int]);
        }
        x[i] == '/'
    } else if i < y.len() {
        assert(p =~= seq![end_rank()]);
        assert(q[0] == order::rank(b@[i as int], -2));
        proof {
            order::lemma_char_bounds(b@[i as int]);
        }
        y[i] != '/'
    } else {
        assert(p =~= q);
        proof {
            order::lemma_lex_reflexive(p);
        }
        true
    }
}

/// Ordering used by `pending`: descendants before their ancestors, scope last, name order
/// among unrelated paths, so agents can summarize files before the directories containing them.
pub fn compare_children_first(a: &str, b: &str) -> (r: Ordering)
    ensures
        r == (if !children_first_le(b@, a@) {
            Ordering::Less
        } else if !children_first_le(a@, b@) {
            Ordering::Greater
        } else {
            Ordering::Equal
        }),
{
    if !children_first_before(b, a) {
        Ordering::Less
    } else if !children_first_before(a, b) {
        Ordering::Greater
    } else {
        Ordering::Equal
    }
}

/// The children-first order is total.
pub proof fn law_children_first_total(a: Seq<char>, b: Seq<char>)
    ensures
        children_first_le(a, b) || children_first_le(b, a),
{
    order::lemma_lex_total(children_first_key(a), children_first_key(b));
}

/// The children-first order is transitive.
pub proof fn law_children_first_transitive(a: Seq<char>, b: Seq<char>, c: Seq<char>)
    requires
        children_first_le(a, b),
        children_first_le(b, c),
    ensures
        children_first_le(a, c),
{
    if a != repo::root_path() && b != repo::root_path() && c != repo::root_path() {
        order::lemma_lex_transitive(
            children_first_key(a),
            children_first_key(b),
            children_first_key(c),
        );
    }
}

/// No two different paths are equal in the children-first order.
pub proof fn law_children_first_antisymmetric(a: Seq<char>, b: Seq<char>)
    requires
        children_first_le(a, b),
        children_first_le(b, a),
    ensures
        a == b,
{
    if a != repo::root_path() && b != repo::root_path() {
        let x = order::ranks(a, separator_rank());
        let y = order::ranks(b, separator_rank());
        order::lemma_lex_antisymmetric(children_first_key(a), children_first_key(b));
        assert(x =~= x.push(end_rank()).drop_last());
        assert(y =~= y.push(end_rank()).drop_last());
        order::lemma_ranks_injective(a, b, separator_rank());
    }
}

/// Everything comes before the directory it lies in, and the root comes last.
pub proof fn law_children_first(dir: Seq<char>, path: Seq<char>)
    requires
        path != dir,
        dir == repo::root_path() || repo::strictly_below(dir, path),
    ensures
        children_first_le(path, dir),
        !children_first_le(dir, path),
{
    if dir != repo::root_path() {
        let m = separator_rank();
        let rest = path.skip(dir.len() as int);
        assert(path.take((dir + seq!['/']).len() as int)[dir.len() as int] == '/');
        assert(rest[0] == '/');
        assert(path =~= dir + rest) by {
            assert(path.take(dir.len() as int) =~= path.take((dir + seq!['/']).len() as int).take(
                dir.len() as int,
            ));
            assert((dir + seq!['/']).take(dir.len() as int) =~= dir);
        }
        order::lemma_ranks_concat(dir, rest, m);
        let p = order::ranks(dir, m);
        let r = order::ranks(rest, m).push(end_rank());
        let s = seq![end_rank()];
        assert(children_first_key(path) =~= p + r);
        assert(children_first_key(dir) =~= p + s);
        order::lemma_lex_prefix(p, r, s);
        order::lemma_lex_prefix(p, s, r);
        assert(r[0] == m && s[0] == end_rank());
        assert(path != repo::root_path()) by {
            assert(path[dir.len() as int] == '/');
        }
    }
}

/// Whether `rest` goes on behind a whole component: it is empty or starts with a separator.
pub open spec fn behind_component(rest: Seq<char>) -> bool {
    rest.len() == 0 || rest[0] == '/'
}

proof fn lemma_components_decide(x: Seq<char>, y: Seq<char>, p: Seq<char>, q: Seq<char>)
    requires
        !x.contains('/'),
        !y.contains('/'),
        x != y,
        behind_component(p),
        behind_component(q),
    ensures
        order::lex_le(children_first_key(x + p), children_first_key(y + q)) == order::text_le(x, y),
    decreases x.len(),
{
    let m = separator_rank();
    let a = children_first_key(x + p);
    let b = children_first_key(y + q);
    let c = order::ranks(x, '/' as int);
    let d = order::ranks(y, '/' as int);
    if x.len() > 0 {
        assert(x.contains(x[0]));
        assert((x + p)[0] == x[0]);
        assert(a[0] == order::rank(x[0], m));
        assert(c[0] == x[0] as int);
        order::lemma_char_bounds(x[0]);
    } else {
        assert(x + p =~= p);
        assert(a[0] == m || a[0] == end_rank());
    }
    if y.len() > 0 {
        assert(y.contains(y[0]));
        assert((y + q)[0] == y[0]);
        assert(b[0] == order::rank(y[0], m));
        assert(d[0] == y[0] as int);
        order::lemma_char_bounds(y[0]);
    } else {
        assert(y + q =~= q);
        assert(b[0] == m || b[0] == end_rank());
    }
    if x.len() > 0 && y.len() > 0 && x[0] == y[0] {
        let u = x.drop_first();
        let v = y.drop_first();
        assert(u != v) by {
            assert(x =~= seq![x[0]] + u);
            assert(y =~= seq![y[0]] + v);
        }
        assert(!u.contains('/')) by {
            if u.contains('/') {
                assert(x[u.index_of('/') + 1] == '/');
            }
        }
        assert(!v.contains('/')) by {
            if v.contains('/') {
                assert(y[v.index_of('/') + 1] == '/');
            }
        }
        lemma_components_decide(u, v, p, q);
        assert((x + p).drop_first() =~= u + p);
        assert((y + q).drop_first() =~= v + q);
        assert(a.drop_first() =~= children_first_key(u + p));
        assert(b.drop_first() =~= children_first_key(v + q));
        assert(c.drop_first() =~= order::ranks(u, '/' as int));
        assert(d.drop_first() =~= order::ranks(v, '/' as int));
    } else if x.len() == 0 && y.len() == 0 {
        assert(x =~= y);
    }
}

/// Paths of which neither lies in the other are in the order of the first components in which they
/// differ: `lib/x` and `lib` come before `lib.rs`.
pub proof fn law_unrelated_paths_by_name(
    dir: Seq<char>,
    x: Seq<char>,
    y: Seq<char>,
    p: Seq<char>,
    q: Seq<char>,
)
    requires
        dir.len() == 0 || dir.last() == '/',
        !x.contains('/'),
        !y.contains('/'),
        x != y,
        behind_component(p),
        behind_component(q),
        dir + x + p != repo::root_path(),
        dir + y + q != repo::root_path(),
    ensures
        children_first_le(dir + x + p, dir + y + q) == order::text_le(x, y),
{
    let m = separator_rank();
    let d = order::ranks(dir, m);
    assert(dir + x + p =~= dir + (x + p));
    assert(dir + y + q =~= dir + (y + q));
    order::lemma_ranks_concat(dir, x + p, m);
    order::lemma_ranks_concat(dir, y + q, m);
    assert(children_first_key(dir + x + p) =~= d + children_first_key(x + p));
    assert(children_first_key(dir + y + q) =~= d + children_first_key(y + q));
    order::lemma_lex_prefix(d, children_first_key(x + p), children_first_key(y + q));
    lemma_components_decide(x, y, p, q);
}

// ---------------------------------------------------------------------------------------------
// JSON
// ---------------------------------------------------------------------------------------------

/// JSON form of the latest historical note.
#[derive(Debug)]
pub struct PreviousJson {
    /// Hash the previous note belongs to.
    pub hash: String,
    /// One-line note text.
    pub note: String,
    /// Timestamp of the previous note.
    pub updated_at: String,
}

/// Model of [`PreviousJson`].
#[verifier::ext_equal]
pub struct PreviousJsonModel {
    pub hash: Seq<char>,
    pub note: Seq<char>,
    pub updated_at: Seq<char>,
}

impl DeepView for PreviousJson {
    type V = PreviousJsonModel;

    open spec fn deep_view(&self) -> PreviousJsonModel {
        PreviousJsonModel {
            hash: self.hash@,
            note: self.note@,
            updated_at: self.updated_at@,
        }
    }
}

/// JSON form of one tree entry.
#[derive(Debug)]
pub struct EntryJson {
    /// Repository-root relative path.
    pub path: String,
    /// Entry kind.
    pub kind: String,
    /// Current content hash.
    pub hash: String,
    /// `fresh`, `stale`, or `missing`.
    pub status: String,
    /// Note text for the current hash (null unless fresh).
    pub note: Option<String>,
    /// Hash the note belongs to (null unless fresh).
    pub note_hash: Option<String>,
    /// Timestamp of the note (null unless fresh).
    pub note_updated_at: Option<String>,
    /// Latest historical note, present only when stale.
    pub previous: Option<PreviousJson>,
}

/// Model of [`EntryJson`].
#[verifier::ext_equal]
pub struct EntryJsonModel {
    pub path: Seq<char>,
    pub kind: Seq<char>,
    pub hash: Seq<char>,
    pub status: Seq<char>,
    pub note: Option<Seq<char>>,
    pub note_hash: Option<Seq<char>>,
    pub note_updated_at: Option<Seq<char>>,
    pub previous: Option<PreviousJsonModel>,
}

impl DeepView for EntryJson {
    type V = EntryJsonModel;

    open spec fn deep_view(&self) -> EntryJsonModel {
        EntryJsonModel {
            path: self.path@,
            kind: self.kind@,
            hash: self.hash@,
            status: self.status@,
            note: self.note.deep_view(),
            note_hash: self.note_hash.deep_view(),
            note_updated_at: self.note_updated_at.deep_view(),
            previous: self.previous.deep_view(),
        }
    }
}

/// JSON form of one AST member.
#[derive(Debug)]
pub struct MemberJson {
    /// Repository-root relative path of the file holding the declaration.
    pub path: String,
    /// Symbol key.
    pub symbol: String,
    /// treenotes member kind.
    pub symbol_kind: String,
    /// Declared name as written.
    pub name: String,
    /// Name qualified by its container chain.
    pub qualified_name: String,
    /// 1-based first line of the declaration.
    pub start_line: usize,
    /// 1-based last line of the declaration.
    pub end_line: usize,
    /// Current member hash.
    pub hash: String,
    /// `fresh`, `stale`, or `missing`.
    pub status: String,
    /// Note text for the current hash (null unless fresh).
    pub note: Option<String>,
    /// Hash the note belongs to (null unless fresh).
    pub note_hash: Option<String>,
    /// Timestamp of the note (null unless fresh).
    pub note_updated_at: Option<String>,
    /// Latest historical note, present only when stale.
    pub previous: Option<PreviousJson>,
}

/// Model of [`MemberJson`].
#[verifier::ext_equal]
pub struct MemberJsonModel {
    pub path: Seq<char>,
    pub symbol: Seq<char>,
    pub symbol_kind: Seq<char>,
    pub name: Seq<char>,
    pub qualified_name: Seq<char>,
    pub start_line: usize,
    pub end_line: usize,
    pub hash: Seq<char>,
    pub status: Seq<char>,
    pub note: Option<Seq<char>>,
    pub note_hash: Option<Seq<char>>,
    pub note_updated_at: Option<Seq<char>>,
    pub previous: Option<PreviousJsonModel>,
}

impl DeepView for MemberJson {
    type V = MemberJsonModel;

    open spec fn deep_view(&self) -> MemberJsonModel {
        MemberJsonModel {
            path: self.path@,
            symbol: self.symbol@,
            symbol_kind: self.symbol_kind@,
            name: self.name@,
            qualified_name: self.qualified_name@,
            start_line: self.start_line,
            end_line: self.end_line,
            hash: self.hash@,
            status: self.status@,
            note: self.note.deep_view(),
            note_hash: self.note_hash.deep_view(),
            note_updated_at: self.note_updated_at.deep_view(),
            previous: self.previous.deep_view(),
        }
    }
}

/// One entry-level change between the current state and a recorded state.
#[derive(Debug)]
pub struct StateChangeJson {
    /// Repository-root relative path.
    pub path: String,
    /// Entry kind in the current state (`file`, `symlink`, `submodule`).
    pub kind: String,
    /// `added`, `removed`, `modified`, or `kind-changed`.
    pub change: String,
    /// Current hash, absent for `removed`.
    pub hash: Option<String>,
    /// Hash in the compared state, present when the path existed there.
    pub previous_hash: Option<String>,
    /// Kind in the compared state, present only for `kind-changed`.
    pub previous_kind: Option<String>,
}

/// Model of [`StateChangeJson`].
#[verifier::ext_equal]
pub struct StateChangeJsonModel {
    pub path: Seq<char>,
    pub kind: Seq<char>,
    pub change: Seq<char>,
    pub hash: Option<Seq<char>>,
    pub previous_hash: Option<Seq<char>>,
    pub previous_kind: Option<Seq<char>>,
}

impl DeepView for StateChangeJson {
    type V = StateChangeJsonModel;

    open spec fn deep_view(&self) -> StateChangeJsonModel {
        StateChangeJsonModel {
            path: self.path@,
            kind: self.kind@,
            change: self.change@,
            hash: self.hash.deep_view(),
            previous_hash: self.previous_hash.deep_view(),
            previous_kind: self.previous_kind.deep_view(),
        }
    }
}

/// The recorded state a `treenotes state` run was compared against.
#[derive(Debug)]
pub struct ComparedStateJson {
    /// `tnt1:state:<hex>` of the compared state.
    pub state_hash: String,
    /// Commit the compared state was observed at, when it was recorded with one.
    pub commit: Option<String>,
    /// When the compared state was recorded.
    pub updated_at: String,
}

/// Model of [`ComparedStateJson`].
#[verifier::ext_equal]
pub struct ComparedStateJsonModel {
    pub state_hash: Seq<char>,
    pub commit: Option<Seq<char>>,
    pub updated_at: Seq<char>,
}

impl DeepView for ComparedStateJson {
    type V = ComparedStateJsonModel;

    open spec fn deep_view(&self) -> ComparedStateJsonModel {
        ComparedStateJsonModel {
            state_hash: self.state_hash@,
            commit: self.commit.deep_view(),
            updated_at: self.updated_at@,
        }
    }
}

/// The derived state block emitted by `treenotes state`.
#[derive(Debug)]
pub struct StateJson {
    /// Aggregate hash of the current inventory: the path, kind and hash of every entry, in path
    /// order.
    pub state_hash: String,
    /// Commit `HEAD` pointed at when the state was observed; null before the first commit.
    pub commit: Option<String>,
    /// True when this exact state hash had already been recorded by an earlier invocation.
    pub known: bool,
    /// Whether this invocation recorded the state.
    pub recorded: bool,
    /// Source files whose members are already cached for their current content hash.
    pub member_cache_hits: usize,
    /// Source files whose members would have to be parsed again.
    pub member_cache_misses: usize,
    /// The recorded state this run is compared against, when one exists.
    pub compared_state: Option<ComparedStateJson>,
    /// Entry-level changes against `compared_state`, ordered by path. Directories are omitted.
    pub changes: Vec<StateChangeJson>,
}

/// Model of [`StateJson`].
#[verifier::ext_equal]
pub struct StateJsonModel {
    pub state_hash: Seq<char>,
    pub commit: Option<Seq<char>>,
    pub known: bool,
    pub recorded: bool,
    pub member_cache_hits: usize,
    pub member_cache_misses: usize,
    pub compared_state: Option<ComparedStateJsonModel>,
    pub changes: Seq<StateChangeJsonModel>,
}

impl DeepView for StateJson {
    type V = StateJsonModel;

    open spec fn deep_view(&self) -> StateJsonModel {
        StateJsonModel {
            state_hash: self.state_hash@,
            commit: self.commit.deep_view(),
            known: self.known,
            recorded: self.recorded,
            member_cache_hits: self.member_cache_hits,
            member_cache_misses: self.member_cache_misses,
            compared_state: self.compared_state.deep_view(),
            changes: self.changes.deep_view(),
        }
    }
}

/// Repository identity block of the JSON envelope.
#[derive(Debug)]
pub struct RepoJson {
    /// Stable repository identity, shared by all linked worktrees.
    pub identity: String,
    /// Absolute path of this worktree's root.
    pub root: String,
    /// Absolute path of the canonical Git common directory.
    pub common_dir: String,
}

/// Model of [`RepoJson`].
#[verifier::ext_equal]
pub struct RepoJsonModel {
    pub identity: Seq<char>,
    pub root: Seq<char>,
    pub common_dir: Seq<char>,
}

impl DeepView for RepoJson {
    type V = RepoJsonModel;

    open spec fn deep_view(&self) -> RepoJsonModel {
        RepoJsonModel {
            identity: self.identity@,
            root: self.root@,
            common_dir: self.common_dir@,
        }
    }
}

/// Scope block of the JSON envelope.
#[derive(Debug)]
pub struct ScopeJson {
    /// Repository-root relative scope path (`"."` for the whole repository).
    pub path: String,
    /// `file`, `dir`, `symlink`, or `submodule`.
    pub kind: String,
    /// Maximum depth below the scope, when `--depth` was given.
    pub depth: Option<usize>,
    /// Directories the listing was narrowed to, when `--only` was given.
    pub filters: Option<Vec<String>>,
}

/// Model of [`ScopeJson`].
#[verifier::ext_equal]
pub struct ScopeJsonModel {
    pub path: Seq<char>,
    pub kind: Seq<char>,
    pub depth: Option<usize>,
    pub filters: Option<Seq<Seq<char>>>,
}

impl DeepView for ScopeJson {
    type V = ScopeJsonModel;

    open spec fn deep_view(&self) -> ScopeJsonModel {
        ScopeJsonModel {
            path: self.path@,
            kind: self.kind@,
            depth: self.depth.deep_view(),
            filters: self.filters.deep_view(),
        }
    }
}

/// Versioned JSON envelope emitted on stdout by `--json` commands.
#[derive(Debug)]
pub struct Envelope {
    /// Envelope version; bump when the shape changes.
    pub version: u32,
    /// Always `treenotes`.
    pub tool: String,
    /// Command that produced the envelope.
    pub command: String,
    /// Repository identity.
    pub repository: RepoJson,
    /// Scope of the query, when the command takes a path.
    pub scope: Option<ScopeJson>,
    /// Number of records written, for `import`.
    pub imported: Option<usize>,
    /// Human readable result line, for `set`, `member-set` and `import`.
    pub message: Option<String>,
    /// True when the grammar had to recover from a syntax error in the scoped files.
    pub parse_error: Option<bool>,
    /// Derived state block, present only on `state`.
    pub state: Option<StateJson>,
    /// Deterministically ordered entries.
    pub entries: Vec<EntryJson>,
    /// Deterministically ordered AST members.
    pub members: Vec<MemberJson>,
}

/// Model of [`Envelope`].
#[verifier::ext_equal]
pub struct EnvelopeModel {
    pub version: u32,
    pub tool: Seq<char>,
    pub command: Seq<char>,
    pub repository: RepoJsonModel,
    pub scope: Option<ScopeJsonModel>,
    pub imported: Option<usize>,
    pub message: Option<Seq<char>>,
    pub parse_error: Option<bool>,
    pub state: Option<StateJsonModel>,
    pub entries: Seq<EntryJsonModel>,
    pub members: Seq<MemberJsonModel>,
}

impl DeepView for Envelope {
    type V = EnvelopeModel;

    open spec fn deep_view(&self) -> EnvelopeModel {
        EnvelopeModel {
            version: self.version,
            tool: self.tool@,
            command: self.command@,
            repository: self.repository.deep_view(),
            scope: self.scope.deep_view(),
            imported: self.imported.deep_view(),
            message: self.message.deep_view(),
            parse_error: self.parse_error.deep_view(),
            state: self.state.deep_view(),
            entries: self.entries.deep_view(),
            members: self.members.deep_view(),
        }
    }
}

/// JSON form of a previous note.
pub open spec fn previous_json(previous: PreviousModel) -> PreviousJsonModel {
    PreviousJsonModel {
        hash: previous.hash,
        note: previous.note,
        updated_at: previous.updated_at,
    }
}

/// JSON form of the previous note, where there is one.
pub open spec fn previous_option_json(previous: Option<PreviousModel>) -> Option<
    PreviousJsonModel,
> {
    match previous {
        Some(p) => Some(previous_json(p)),
        None => None,
    }
}

/// JSON form of an entry.
pub open spec fn entry_json(view: EntryViewModel) -> EntryJsonModel {
    EntryJsonModel {
        path: view.path,
        kind: repo::kind_name(view.kind),
        hash: view.hash,
        status: status_text(view.status),
        note: view.note,
        note_hash: view.note_hash,
        note_updated_at: view.note_updated_at,
        previous: previous_option_json(view.previous),
    }
}

/// JSON form of a note that was just written.
pub open spec fn new_note_json(note: NewNoteModel) -> EntryJsonModel {
    EntryJsonModel {
        path: note.path,
        kind: repo::kind_name(note.kind),
        hash: note.hash,
        status: status_text(Status::Fresh),
        note: Some(note.note),
        note_hash: Some(note.hash),
        note_updated_at: None,
        previous: None,
    }
}

/// JSON form of a member.
pub open spec fn member_json(view: MemberViewModel) -> MemberJsonModel {
    MemberJsonModel {
        path: view.path,
        symbol: view.symbol,
        symbol_kind: view.symbol_kind,
        name: view.name,
        qualified_name: view.qualified_name,
        start_line: view.start_line,
        end_line: view.end_line,
        hash: view.hash,
        status: status_text(view.status),
        note: view.note,
        note_hash: view.note_hash,
        note_updated_at: view.note_updated_at,
        previous: previous_option_json(view.previous),
    }
}

/// JSON form of a member note that was just written.
pub open spec fn new_member_note_json(note: NewMemberNoteModel) -> MemberJsonModel {
    MemberJsonModel {
        path: note.path,
        symbol: note.symbol,
        symbol_kind: note.symbol_kind,
        name: note.name,
        qualified_name: note.qualified_name,
        start_line: note.start_line,
        end_line: note.end_line,
        hash: note.hash,
        status: status_text(Status::Fresh),
        note: Some(note.note),
        note_hash: Some(note.hash),
        note_updated_at: None,
        previous: None,
    }
}

fn previous_json_of(previous: &Option<Previous>) -> (r: Option<PreviousJson>)
    ensures
        r.deep_view() == previous_option_json(previous.deep_view()),
{
    match previous {
        Some(p) => Some(
            PreviousJson {
                hash: p.hash.clone(),
                note: p.note.clone(),
                updated_at: p.updated_at.clone(),
            },
        ),
        None => None,
    }
}

/// A copy of an optional string.
fn copy_option(s: &Option<String>) -> (r: Option<String>)
    ensures
        r.deep_view() == s.deep_view(),
{
    match s {
        Some(t) => Some(t.clone()),
        None => None,
    }
}

impl From<&EntryView> for EntryJson {
    fn from(view: &EntryView) -> (r: EntryJson)
        ensures
            r.deep_view() == entry_json(view.deep_view()),
    {
        EntryJson {
            path: view.path.clone(),
            kind: view.kind.as_str().to_owned(),
            hash: view.hash.clone(),
            status: view.status.as_str().to_owned(),
            note: copy_option(&view.note),
            note_hash: copy_option(&view.note_hash),
            note_updated_at: copy_option(&view.note_updated_at),
            previous: previous_json_of(&view.previous),
        }
    }
}

impl vstd::std_specs::convert::FromSpecImpl<&EntryView> for EntryJson {
    open spec fn obeys_from_spec() -> bool {
        false
    }

    open spec fn from_spec(view: &EntryView) -> EntryJson {
        arbitrary()
    }
}

impl EntryJson {
    /// JSON form of a note that was just written for the current entry version.
    pub fn from_new(note: &NewNote) -> (r: EntryJson)
        ensures
            r.deep_view() == new_note_json(note.deep_view()),
    {
        EntryJson {
            path: note.path.clone(),
            kind: note.kind.as_str().to_owned(),
            hash: note.hash.clone(),
            status: Status::Fresh.as_str().to_owned(),
            note: Some(note.note.clone()),
            note_hash: Some(note.hash.clone()),
            note_updated_at: None,
            previous: None,
        }
    }
}

impl From<&MemberView> for MemberJson {
    fn from(view: &MemberView) -> (r: MemberJson)
        ensures
            r.deep_view() == member_json(view.deep_view()),
    {
        MemberJson {
            path: view.path.clone(),
            symbol: view.symbol.clone(),
            symbol_kind: view.symbol_kind.clone(),
            name: view.name.clone(),
            qualified_name: view.qualified_name.clone(),
            start_line: view.start_line,
            end_line: view.end_line,
            hash: view.hash.clone(),
            status: view.status.as_str().to_owned(),
            note: copy_option(&view.note),
            note_hash: copy_option(&view.note_hash),
            note_updated_at: copy_option(&view.note_updated_at),
            previous: previous_json_of(&view.previous),
        }
    }
}

impl vstd::std_specs::convert::FromSpecImpl<&MemberView> for MemberJson {
    open spec fn obeys_from_spec() -> bool {
        false
    }

    open spec fn from_spec(view: &MemberView) -> MemberJson {
        arbitrary()
    }
}

impl MemberJson {
    /// JSON form of a member note that was just written for the current member version.
    pub fn from_new(note: &NewMemberNote) -> (r: MemberJson)
        ensures
            r.deep_view() == new_member_note_json(note.deep_view()),
    {
        MemberJson {
            path: note.path.clone(),
            symbol: note.symbol.clone(),
            symbol_kind: note.symbol_kind.clone(),
            name: note.name.clone(),
            qualified_name: note.qualified_name.clone(),
            start_line: note.start_line,
            end_line: note.end_line,
            hash: note.hash.clone(),
            status: Status::Fresh.as_str().to_owned(),
            note: Some(note.note.clone()),
            note_hash: Some(note.hash.clone()),
            note_updated_at: None,
            previous: None,
        }
    }
}

/// An envelope that says nothing but which command ran where.
pub open spec fn bare_envelope(command: Seq<char>, repository: RepoJsonModel) -> EnvelopeModel {
    EnvelopeModel {
        version: JSON_VERSION,
        tool: PROGRAM@,
        command,
        repository,
        scope: None,
        imported: None,
        message: None,
        parse_error: None,
        state: None,
        entries: Seq::empty(),
        members: Seq::empty(),
    }
}

impl Envelope {
    /// Start an envelope for `command` in `repository`.
    pub fn new(command: &str, repository: RepoJson) -> (r: Envelope)
        ensures
            r.deep_view() == bare_envelope(command@, repository.deep_view()),
    {
        let r = Envelope {
            version: JSON_VERSION,
            tool: PROGRAM.to_owned(),
            command: command.to_owned(),
            repository,
            scope: None,
            imported: None,
            message: None,
            parse_error: None,
            state: None,
            entries: Vec::new(),
            members: Vec::new(),
        };
        assert(r.entries.deep_view() =~= Seq::<EntryJsonModel>::empty());
        assert(r.members.deep_view() =~= Seq::<MemberJsonModel>::empty());
        r
    }
}

/// JSON forms of entries, in their order.
pub fn entries_json(views: &Vec<EntryView>) -> (r: Vec<EntryJson>)
    ensures
        r.deep_view() == views.deep_view().map_values(|item: EntryViewModel| entry_json(item)),
{
    let ghost all = views.deep_view().map_values(|item: EntryViewModel| entry_json(item));
    let mut out: Vec<EntryJson> = Vec::new();
    let mut i: usize = 0;
    assert(out.deep_view() =~= all.take(0));
    while i < views.len()
        invariant
            i <= views@.len(),
            all == views.deep_view().map_values(|item: EntryViewModel| entry_json(item)),
            out.deep_view() == all.take(i as int),
        decreases views@.len() - i,
    {
        let ghost before = out.deep_view();
        let item = EntryJson::from(&views[i]);
        let ghost model = item.deep_view();
        out.push(item);
        proof {
            assert(views.deep_view()[i as int] == views@[i as int].deep_view());
            assert(out.deep_view() =~= before.push(model));
            assert(out.deep_view() =~= all.take(i + 1));
        }
        i += 1;
    }
    assert(all.take(all.len() as int) =~= all);
    out
}

/// JSON forms of members, in their order.
pub fn members_json(views: &Vec<MemberView>) -> (r: Vec<MemberJson>)
    ensures
        r.deep_view() == views.deep_view().map_values(|item: MemberViewModel| member_json(item)),
{
    let ghost all = views.deep_view().map_values(|item: MemberViewModel| member_json(item));
    let mut out: Vec<MemberJson> = Vec::new();
    let mut i: usize = 0;
    assert(out.deep_view() =~= all.take(0));
    while i < views.len()
        invariant
            i <= views@.len(),
            all == views.deep_view().map_values(|item: MemberViewModel| member_json(item)),
            out.deep_view() == all.take(i as int),
        decreases views@.len() - i,
    {
        let ghost before = out.deep_view();
        let item = MemberJson::from(&views[i]);
        let ghost model = item.deep_view();
        out.push(item);
        proof {
            assert(views.deep_view()[i as int] == views@[i as int].deep_view());
            assert(out.deep_view() =~= before.push(model));
            assert(out.deep_view() =~= all.take(i + 1));
        }
        i += 1;
    }
    assert(all.take(all.len() as int) =~= all);
    out
}

/// JSON forms of notes that were just written, in their order.
pub fn new_entries_json(notes: &Vec<NewNote>) -> (r: Vec<EntryJson>)
    ensures
        r.deep_view() == notes.deep_view().map_values(|item: NewNoteModel| new_note_json(item)),
{
    let ghost all = notes.deep_view().map_values(|item: NewNoteModel| new_note_json(item));
    let mut out: Vec<EntryJson> = Vec::new();
    let mut i: usize = 0;
    assert(out.deep_view() =~= all.take(0));
    while i < notes.len()
        invariant
            i <= notes@.len(),
            all == notes.deep_view().map_values(|item: NewNoteModel| new_note_json(item)),
            out.deep_view() == all.take(i as int),
        decreases notes@.len() - i,
    {
        let ghost before = out.deep_view();
        let item = EntryJson::from_new(&notes[i]);
        let ghost model = item.deep_view();
        out.push(item);
        proof {
            assert(notes.deep_view()[i as int] == notes@[i as int].deep_view());
            assert(out.deep_view() =~= before.push(model));
            assert(out.deep_view() =~= all.take(i + 1));
        }
        i += 1;
    }
    assert(all.take(all.len() as int) =~= all);
    out
}

/// JSON forms of member notes that were just written, in their order.
pub fn new_members_json(notes: &Vec<NewMemberNote>) -> (r: Vec<MemberJson>)
    ensures
        r.deep_view() == notes.deep_view().map_values(|item: NewMemberNoteModel| new_member_note_json(item)),
{
    let ghost all = notes.deep_view().map_values(|item: NewMemberNoteModel| new_member_note_json(item));
    let mut out: Vec<MemberJson> = Vec::new();
    let mut i: usize = 0;
    assert(out.deep_view() =~= all.take(0));
    while i < notes.len()
        invariant
            i <= notes@.len(),
            all == notes.deep_view().map_values(|item: NewMemberNoteModel| new_member_note_json(item)),
            out.deep_view() == all.take(i as int),
        decreases notes@.len() - i,
    {
        let ghost before = out.deep_view();
        let item = MemberJson::from_new(&notes[i]);
        let ghost model = item.deep_view();
        out.push(item);
        proof {
            assert(notes.deep_view()[i as int] == notes@[i as int].deep_view());
            assert(out.deep_view() =~= before.push(model));
            assert(out.deep_view() =~= all.take(i + 1));
        }
        i += 1;
    }
    assert(all.take(all.len() as int) =~= all);
    out
}

/// JSON form of a repository.
pub open spec fn repository_json(identity: Seq<char>, root: Seq<char>, common_dir: Seq<char>) ->
    RepoJsonModel {
    RepoJsonModel { identity, root, common_dir }
}

/// Identity block of a repository.
pub fn repo_json(repo: &Repo) -> (r: RepoJson)
    ensures
        r.deep_view() == repository_json(repo.identity@, repo.root@, repo.common_dir@),
{
    RepoJson {
        identity: repo.identity.clone(),
        root: repo.root.clone(),
        common_dir: repo.common_dir.clone(),
    }
}

} // verus!
