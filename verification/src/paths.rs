//! Lexical work on paths: joining, normalizing, and reading arguments relative to the repository
//! root. Nothing here looks at the file system.
use crate::repo;
use crate::text;
use crate::{CmdError, CmdErrorModel};
use vstd::prelude::*;

verus! {

/// Whether a path starts at the file system root.
pub open spec fn is_absolute(path: Seq<char>) -> bool {
    path.len() > 0 && path[0] == '/'
}

/// `rel` seen from the directory `base`; an absolute `rel` stands for itself.
pub open spec fn joined(base: Seq<char>, rel: Seq<char>) -> Seq<char> {
    if is_absolute(rel) || base.len() == 0 {
        rel
    } else if base.last() == '/' {
        base + rel
    } else {
        base + seq!['/'] + rel
    }
}

/// Whether a path starts at the file system root.
pub fn absolute(path: &str) -> (r: bool)
    ensures
        r == is_absolute(path@),
{
    proof {
        reveal_strlit("/");
    }
    let r = text::starts_with(path, "/");
    proof {
        if is_absolute(path@) {
            assert(path@.take(1) =~= "/"@);
        }
        if r {
            assert(path@.take(1)[0] == "/"@[0]);
        }
    }
    r
}

/// `rel` seen from the directory `base`; an absolute `rel` stands for itself.
pub fn join_path(base: &str, rel: &str) -> (r: String)
    ensures
        r@ == joined(base@, rel@),
{
    let length = base.unicode_len();
    if absolute(rel) || length == 0 {
        rel.to_owned()
    } else {
        let mut out = base.to_owned();
        if base.get_char(length - 1) != '/' {
            out.push('/');
            assert(out@ =~= base@ + seq!['/']);
        }
        out.append(rel);
        out
    }
}

/// Whether a component names no step: it is empty or `.`.
pub open spec fn is_no_step(part: Seq<char>) -> bool {
    part.len() == 0 || part == seq!['.']
}

/// The component that leads to the parent directory.
pub open spec fn dot_dot() -> Seq<char> {
    seq!['.', '.']
}

/// The components that are left when `.` and empty components are dropped and `..` takes the
/// component before it away.
pub open spec fn reduced(parts: Seq<Seq<char>>) -> Seq<Seq<char>>
    decreases parts.len(),
{
    if parts.len() == 0 {
        parts
    } else {
        let head = reduced(parts.drop_last());
        let part = parts.last();
        if is_no_step(part) {
            head
        } else if part == dot_dot() {
            if head.len() == 0 {
                head
            } else {
                head.drop_last()
            }
        } else {
            head.push(part)
        }
    }
}

/// A path without `.`, `..` and empty components, applied textually.
pub open spec fn normalized(path: Seq<char>) -> Seq<char> {
    let rest = text::join(reduced(text::split(path, '/')), seq!['/']);
    if is_absolute(path) {
        seq!['/'] + rest
    } else {
        rest
    }
}

/// The components of a path that name a step.
pub open spec fn steps(parts: Seq<Seq<char>>) -> Seq<Seq<char>>
    decreases parts.len(),
{
    if parts.len() == 0 {
        parts
    } else if is_no_step(parts.last()) {
        steps(parts.drop_last())
    } else {
        steps(parts.drop_last()).push(parts.last())
    }
}

/// The components of a path that name a step.
pub open spec fn components(path: Seq<char>) -> Seq<Seq<char>> {
    steps(text::split(path, '/'))
}

/// `path` relative to `root` where it lies inside it: the components behind those of `root`, or
/// `.` for `root` itself.
pub open spec fn relative(root: Seq<char>, path: Seq<char>) -> Option<Seq<char>> {
    let a = components(root);
    let b = components(path);
    if is_absolute(root) == is_absolute(path) && a.len() <= b.len() && b.take(a.len() as int) == a {
        if a.len() == b.len() {
            Some(repo::root_path())
        } else {
            Some(text::join(b.skip(a.len() as int), seq!['/']))
        }
    } else {
        None
    }
}

proof fn lemma_literals()
    ensures
        "."@ == seq!['.'],
        ".."@ == dot_dot(),
        "/"@ == seq!['/'],
        ""@ == Seq::<char>::empty(),
{
    reveal_strlit(".");
    reveal_strlit("..");
    reveal_strlit("/");
    reveal_strlit("");
    assert("."@ =~= seq!['.']);
    assert(".."@ =~= dot_dot());
    assert("/"@ =~= seq!['/']);
    assert(""@ =~= Seq::<char>::empty());
}

fn no_step(part: &str) -> (r: bool)
    ensures
        r == is_no_step(part@),
{
    proof {
        lemma_literals();
    }
    part.is_empty() || text::same(part, ".")
}

fn is_dot_dot(part: &str) -> (r: bool)
    ensures
        r == (part@ == dot_dot()),
{
    proof {
        lemma_literals();
    }
    text::same(part, "..")
}

/// The components that are left of a path, with `..` applied textually.
pub fn reduced_texts(path: &str) -> (r: Vec<String>)
    ensures
        r.deep_view() == reduced(text::split(path@, '/')),
{
    let parts = text::split_text(path, '/');
    let ghost all = parts.deep_view();
    let mut kept: Vec<String> = Vec::new();
    let mut i: usize = 0;
    assert(kept.deep_view() =~= reduced(all.take(0)));
    while i < parts.len()
        invariant
            i <= parts@.len(),
            all == parts.deep_view(),
            kept.deep_view() == reduced(all.take(i as int)),
        decreases parts@.len() - i,
    {
        let ghost before = kept.deep_view();
        let part = &parts[i];
        proof {
            assert(all.take(i + 1).drop_last() =~= all.take(i as int));
            assert(all.take(i + 1).last() == part@);
        }
        if no_step(part.as_str()) {
        } else if is_dot_dot(part.as_str()) {
            kept.pop();
            assert(before.len() > 0 ==> kept.deep_view() =~= before.drop_last());
            assert(before.len() == 0 ==> kept.deep_view() =~= before);
        } else {
            kept.push(part.clone());
            assert(kept.deep_view() =~= before.push(part@));
        }
        i += 1;
    }
    assert(all.take(all.len() as int) =~= all);
    kept
}

/// Lexically normalize a path (no symlink resolution, `..` applied textually).
pub fn normalize(path: &str) -> (r: String)
    ensures
        r@ == normalized(path@),
{
    let kept = reduced_texts(path);
    proof {
        lemma_literals();
    }
    let rest = text::join_text(&kept, "/");
    if absolute(path) {
        let mut out = "/".to_owned();
        out.append(rest.as_str());
        out
    } else {
        rest
    }
}

fn component_texts(path: &str) -> (r: Vec<String>)
    ensures
        r.deep_view() == components(path@),
{
    let parts = text::split_text(path, '/');
    let ghost all = parts.deep_view();
    let mut kept: Vec<String> = Vec::new();
    let mut i: usize = 0;
    assert(kept.deep_view() =~= steps(all.take(0)));
    while i < parts.len()
        invariant
            i <= parts@.len(),
            all == parts.deep_view(),
            kept.deep_view() == steps(all.take(i as int)),
        decreases parts@.len() - i,
    {
        let ghost before = kept.deep_view();
        let part = &parts[i];
        proof {
            assert(all.take(i + 1).drop_last() =~= all.take(i as int));
            assert(all.take(i + 1).last() == part@);
        }
        if !no_step(part.as_str()) {
            kept.push(part.clone());
            assert(kept.deep_view() =~= before.push(part@));
        }
        i += 1;
    }
    assert(all.take(all.len() as int) =~= all);
    kept
}

/// Repository-root relative form of `path`, when it lies inside `root`.
pub fn relative_to(root: &str, path: &str) -> (r: Option<String>)
    ensures
        r.deep_view() == relative(root@, path@),
{
    let a = component_texts(root);
    let b = component_texts(path);
    let ghost x = a.deep_view();
    let ghost y = b.deep_view();
    if absolute(root) != absolute(path) || a.len() > b.len() {
        return None;
    }
    let mut i: usize = 0;
    while i < a.len()
        invariant
            i <= a@.len() <= b@.len(),
            x == a.deep_view(),
            y == b.deep_view(),
            x == components(root@),
            y == components(path@),
            forall|k: int| 0 <= k < i ==> x[k] == y[k],
        decreases a@.len() - i,
    {
        assert(x[i as int] == a@[i as int]@ && y[i as int] == b@[i as int]@);
        if !text::same(a[i].as_str(), b[i].as_str()) {
            assert(y.take(x.len() as int)[i as int] != x[i as int]);
            return None;
        }
        i += 1;
    }
    assert(y.take(x.len() as int) =~= x);
    proof {
        lemma_literals();
    }
    if a.len() == b.len() {
        return Some(".".to_owned());
    }
    let mut rest: Vec<String> = Vec::new();
    let mut k: usize = a.len();
    while k < b.len()
        invariant
            a@.len() <= k <= b@.len(),
            y == b.deep_view(),
            rest.deep_view() == y.subrange(a@.len() as int, k as int),
        decreases b@.len() - k,
    {
        let ghost before = rest.deep_view();
        rest.push(b[k].clone());
        assert(rest.deep_view() =~= before.push(y[k as int]));
        assert(rest.deep_view() =~= y.subrange(a@.len() as int, k + 1));
        k += 1;
    }
    assert(rest.deep_view() =~= y.skip(x.len() as int));
    Some(text::join_text(&rest, "/"))
}

/// Repository-root reading of a relative argument: the steps as written, which are none for the
/// root; nothing when the argument is absolute or leads upwards.
pub open spec fn root_reading(arg: Seq<char>) -> Option<Seq<char>> {
    if is_absolute(arg) || text::split(arg, '/').contains(dot_dot()) {
        None
    } else {
        Some(text::join(components(arg), seq!['/']))
    }
}

/// Whether a part of `parts` is `..`.
fn leads_upwards(parts: &Vec<String>) -> (r: bool)
    ensures
        r == parts.deep_view().contains(dot_dot()),
{
    let ghost all = parts.deep_view();
    let mut i: usize = 0;
    while i < parts.len()
        invariant
            i <= parts@.len(),
            all == parts.deep_view(),
            forall|k: int| 0 <= k < i ==> all[k] != dot_dot(),
        decreases parts@.len() - i,
    {
        assert(all[i as int] == parts@[i as int]@);
        if is_dot_dot(parts[i].as_str()) {
            assert(all[i as int] == dot_dot());
            return true;
        }
        i += 1;
    }
    false
}

/// Repository-root reading of a relative argument: the path as written with `.` and empty
/// components dropped; `None` when it escapes the root or is not a plain relative path.
pub fn root_relative(arg: &str) -> (r: Option<String>)
    ensures
        r.deep_view() == root_reading(arg@),
{
    if absolute(arg) {
        return None;
    }
    let parts = text::split_text(arg, '/');
    if leads_upwards(&parts) {
        return None;
    }
    let kept = component_texts(arg);
    proof {
        lemma_literals();
    }
    Some(text::join_text(&kept, "/"))
}

/// The complaint about the first component, from `i` on, that a record path must not have.
pub open spec fn component_fault(
    raw: Seq<char>,
    parts: Seq<Seq<char>>,
    i: int,
) -> Option<Seq<char>>
    decreases parts.len() - i,
{
    if i < 0 || i >= parts.len() {
        None
    } else if parts[i].len() == 0 {
        Some("path "@ + raw + " has an empty component"@)
    } else if parts[i] == seq!['.'] || parts[i] == dot_dot() {
        Some("path "@ + raw + " contains a "@ + parts[i] + " component"@)
    } else {
        component_fault(raw, parts, i + 1)
    }
}

/// What a path of an import record stands for: itself, or the complaint about it.
pub open spec fn record_path(raw: Seq<char>) -> Result<Seq<char>, CmdErrorModel> {
    if raw.len() == 0 {
        Err(crate::usage_error("path must not be empty"@))
    } else if raw.contains('\0') {
        Err(crate::usage_error("path must not contain a NUL byte"@))
    } else if is_absolute(raw) {
        Err(
            crate::usage_error(
                "path "@ + raw + " must be repository-root relative, not absolute"@,
            ),
        )
    } else if raw.contains('\\') {
        Err(crate::usage_error("path "@ + raw + " must use forward slashes"@))
    } else if raw == repo::root_path() {
        Ok(raw)
    } else {
        match component_fault(raw, text::split(raw, '/'), 0) {
            Some(message) => Err(crate::usage_error(message)),
            None => Ok(raw),
        }
    }
}

/// Normalize a repository-relative path from an import record.
pub fn normalize_relative_path(raw: &str) -> (r: Result<String, CmdError>)
    ensures
        crate::outcome(r) == record_path(raw@),
{
    proof {
        lemma_literals();
    }
    if raw.is_empty() {
        return Err(CmdError::usage("path must not be empty"));
    }
    if text::has_char(raw, '\0') {
        return Err(CmdError::usage("path must not contain a NUL byte"));
    }
    let mut message = "path ".to_owned();
    message.append(raw);
    if absolute(raw) {
        message.append(" must be repository-root relative, not absolute");
        return Err(CmdError::usage(message.as_str()));
    }
    if text::has_char(raw, '\\') {
        message.append(" must use forward slashes");
        return Err(CmdError::usage(message.as_str()));
    }
    if repo::is_root(raw) {
        return Ok(raw.to_owned());
    }
    let parts = text::split_text(raw, '/');
    let ghost all = parts.deep_view();
    let mut i: usize = 0;
    while i < parts.len()
        invariant
            i <= parts@.len(),
            all == parts.deep_view(),
            all == text::split(raw@, '/'),
            message@ == "path "@ + raw@,
            raw@.len() > 0,
            !raw@.contains('\0'),
            !is_absolute(raw@),
            !raw@.contains('\\'),
            raw@ != repo::root_path(),
            component_fault(raw@, all, 0) == component_fault(raw@, all, i as int),
            "."@ == seq!['.'],
        decreases parts@.len() - i,
    {
        let part = &parts[i];
        assert(all[i as int] == part@);
        if part.as_str().is_empty() {
            message.append(" has an empty component");
            return Err(CmdError::usage(message.as_str()));
        }
        if text::same(part.as_str(), ".") || is_dot_dot(part.as_str()) {
            message.append(" contains a ");
            message.append(part.as_str());
            message.append(" component");
            return Err(CmdError::usage(message.as_str()));
        }
        i += 1;
    }
    Ok(raw.to_owned())
}

// ---------------------------------------------------------------------------------------------
// Laws
// ---------------------------------------------------------------------------------------------

/// Whether a component names a step down.
pub open spec fn is_step(part: Seq<char>) -> bool {
    !is_no_step(part) && part != dot_dot()
}

/// Whether a path consists of steps down and separators only, as the paths of a tree do.
pub open spec fn is_clean(path: Seq<char>) -> bool {
    forall|i: int|
        0 <= i < text::split(path, '/').len() ==> is_step(#[trigger] text::split(path, '/')[i])
}

pub proof fn lemma_steps_of_steps(parts: Seq<Seq<char>>)
    requires
        forall|i: int| 0 <= i < parts.len() ==> is_step(#[trigger] parts[i]),
    ensures
        steps(parts) == parts,
        reduced(parts) == parts,
    decreases parts.len(),
{
    if parts.len() > 0 {
        let head = parts.drop_last();
        assert forall|i: int| 0 <= i < head.len() implies is_step(#[trigger] head[i]) by {
            assert(head[i] == parts[i]);
        }
        lemma_steps_of_steps(head);
        assert(is_step(parts[parts.len() - 1]));
        assert(head.push(parts.last()) =~= parts);
    }
}

pub proof fn lemma_clean_is_relative(path: Seq<char>)
    requires
        is_clean(path),
    ensures
        path.len() > 0,
        !is_absolute(path),
{
    text::lemma_join_split(path, '/');
    text::lemma_split_nonempty(path, '/');
    let parts = text::split(path, '/');
    assert(is_step(parts[0]));
    if path.len() == 0 {
        assert(parts[0].len() == 0);
    } else if is_absolute(path) {
        lemma_first_piece(path);
    }
}

/// What stands before the first separator is the first piece.
proof fn lemma_first_piece(path: Seq<char>)
    requires
        is_absolute(path),
    ensures
        text::split(path, '/').len() >= 2,
        text::split(path, '/')[0] == Seq::<char>::empty(),
    decreases path.len(),
{
    text::lemma_split_nonempty(path.drop_last(), '/');
    if path.len() > 1 {
        assert(path.drop_last()[0] == path[0]);
        lemma_first_piece(path.drop_last());
    } else {
        assert(path.drop_last() =~= Seq::empty());
    }
}

/// A path of the tree reads as itself: what a listing exports can be passed back unchanged as an
/// argument, and, where it holds no NUL and no backslash, as the path of a record.
pub proof fn law_clean_paths_read_as_themselves(path: Seq<char>)
    requires
        is_clean(path),
    ensures
        root_reading(path) == Some(path),
        !path.contains('\0') && !path.contains('\\') ==> record_path(path) == Ok::<Seq<char>, CmdErrorModel>(path),
{
    let parts = text::split(path, '/');
    lemma_clean_is_relative(path);
    lemma_steps_of_steps(parts);
    text::lemma_join_split(path, '/');
    if parts.contains(dot_dot()) {
        assert(is_step(parts[parts.index_of(dot_dot())]));
    }
    lemma_no_fault(path, parts, 0);
}

proof fn lemma_no_fault(raw: Seq<char>, parts: Seq<Seq<char>>, i: int)
    requires
        0 <= i,
        forall|k: int| 0 <= k < parts.len() ==> is_step(#[trigger] parts[k]),
    ensures
        component_fault(raw, parts, i) is None,
    decreases parts.len() - i,
{
    if i < parts.len() {
        assert(is_step(parts[i]));
        lemma_no_fault(raw, parts, i + 1);
    }
}

proof fn lemma_steps_are_steps(parts: Seq<Seq<char>>, sep: char)
    requires
        !parts.contains(dot_dot()),
        forall|i: int| 0 <= i < parts.len() ==> !(#[trigger] parts[i]).contains(sep),
    ensures
        forall|i: int| 0 <= i < steps(parts).len() ==> is_step(#[trigger] steps(parts)[i]),
        forall|i: int| 0 <= i < steps(parts).len() ==> !(#[trigger] steps(parts)[i]).contains(sep),
    decreases parts.len(),
{
    if parts.len() > 0 {
        let head = parts.drop_last();
        assert(!head.contains(dot_dot())) by {
            if head.contains(dot_dot()) {
                assert(parts[head.index_of(dot_dot())] == dot_dot());
            }
        }
        assert forall|i: int| 0 <= i < head.len() implies !(#[trigger] head[i]).contains(sep) by {
            assert(head[i] == parts[i]);
        }
        lemma_steps_are_steps(head, sep);
        let kept = steps(head);
        assert(parts[parts.len() - 1] == parts.last());
        assert(parts.contains(parts.last()));
        assert forall|i: int| 0 <= i < steps(parts).len() implies is_step(#[trigger] steps(parts)[i])
            && !steps(parts)[i].contains(sep) by {
            if i < kept.len() {
                assert(is_step(kept[i]) && !kept[i].contains(sep));
            }
        }
    }
}

/// The reading of an argument, unless it names nothing, is a clean path, so reading it again
/// changes nothing.
pub proof fn law_readings_are_clean(arg: Seq<char>)
    requires
        root_reading(arg) is Some,
        components(arg).len() > 0,
    ensures
        is_clean(root_reading(arg)->0),
        root_reading(root_reading(arg)->0) == root_reading(arg),
{
    let parts = text::split(arg, '/');
    let kept = components(arg);
    let path = root_reading(arg)->0;
    text::lemma_split_pieces(arg, '/');
    lemma_steps_are_steps(parts, '/');
    text::lemma_split_join(kept, '/');
    assert(is_clean(path)) by {
        assert forall|i: int| 0 <= i < text::split(path, '/').len() implies is_step(
            #[trigger] text::split(path, '/')[i],
        ) by {
            assert(kept[i] == text::split(path, '/')[i]);
        }
    }
    law_clean_paths_read_as_themselves(path);
}

/// An argument of `.` and empty components is read as no step at all.
pub proof fn law_arguments_without_steps(arg: Seq<char>)
    requires
        !is_absolute(arg),
        forall|i: int|
            0 <= i < text::split(arg, '/').len() ==> is_no_step(#[trigger] text::split(arg, '/')[i]),
    ensures
        root_reading(arg) == Some(Seq::<char>::empty()),
{
    let parts = text::split(arg, '/');
    lemma_no_steps(parts);
    if parts.contains(dot_dot()) {
        let part = parts[parts.index_of(dot_dot())];
        assert(is_no_step(part));
        assert(part.len() == 2);
    }
}

proof fn lemma_no_steps(parts: Seq<Seq<char>>)
    requires
        forall|i: int| 0 <= i < parts.len() ==> is_no_step(#[trigger] parts[i]),
    ensures
        steps(parts) == Seq::<Seq<char>>::empty(),
    decreases parts.len(),
{
    if parts.len() > 0 {
        let head = parts.drop_last();
        assert forall|i: int| 0 <= i < head.len() implies is_no_step(#[trigger] head[i]) by {
            assert(head[i] == parts[i]);
        }
        lemma_no_steps(head);
        assert(is_no_step(parts[parts.len() - 1]));
    } else {
        assert(parts =~= Seq::empty());
    }
}

/// A record's path is never rewritten: it is accepted as it stands, when it is the root or a clean
/// path without NUL and backslash, or refused.
pub proof fn law_record_paths_are_kept(raw: Seq<char>)
    ensures
        record_path(raw) is Ok ==> record_path(raw)->Ok_0 == raw,
        record_path(raw) is Ok <==> !raw.contains('\0') && !raw.contains('\\') && (raw
            == repo::root_path() || is_clean(raw)),
{
    let parts = text::split(raw, '/');
    if raw.len() > 0 && !raw.contains('\0') && !is_absolute(raw) && !raw.contains('\\') && raw
        != repo::root_path() {
        lemma_fault_of_parts(raw, parts, 0);
    }
    if is_clean(raw) {
        law_clean_paths_read_as_themselves(raw);
        lemma_clean_is_relative(raw);
    }
    if raw == repo::root_path() {
        assert(raw[0] == '.');
        assert(!raw.contains('\\') && !raw.contains('\0'));
    }
}

proof fn lemma_fault_of_parts(raw: Seq<char>, parts: Seq<Seq<char>>, i: int)
    requires
        0 <= i,
    ensures
        component_fault(raw, parts, i) is None <==> forall|k: int|
            i <= k < parts.len() ==> is_step(#[trigger] parts[k]),
    decreases parts.len() - i,
{
    if i < parts.len() {
        lemma_fault_of_parts(raw, parts, i + 1);
        if component_fault(raw, parts, i) is None {
            assert(is_step(parts[i]));
        }
        if forall|k: int| i <= k < parts.len() ==> is_step(#[trigger] parts[k]) {
            assert(is_step(parts[i]));
        }
    }
}

proof fn lemma_reduced_are_steps(parts: Seq<Seq<char>>)
    requires
        forall|i: int| 0 <= i < parts.len() ==> !(#[trigger] parts[i]).contains('/'),
    ensures
        forall|i: int| 0 <= i < reduced(parts).len() ==> is_step(#[trigger] reduced(parts)[i]),
        forall|i: int| 0 <= i < reduced(parts).len() ==> !(#[trigger] reduced(parts)[i]).contains(
            '/',
        ),
    decreases parts.len(),
{
    if parts.len() > 0 {
        let head = parts.drop_last();
        assert forall|i: int| 0 <= i < head.len() implies !(#[trigger] head[i]).contains('/') by {
            assert(head[i] == parts[i]);
        }
        lemma_reduced_are_steps(head);
        let kept = reduced(head);
        assert(!parts[parts.len() - 1].contains('/'));
        assert forall|i: int| 0 <= i < reduced(parts).len() implies is_step(
            #[trigger] reduced(parts)[i],
        ) && !reduced(parts)[i].contains('/') by {
            if i < kept.len() {
                assert(is_step(kept[i]) && !kept[i].contains('/'));
            }
        }
    }
}

/// The pieces behind a leading separator.
pub proof fn lemma_split_leading(rest: Seq<char>)
    ensures
        text::split(seq!['/'] + rest, '/') == seq![Seq::<char>::empty()] + text::split(rest, '/'),
    decreases rest.len(),
{
    let all = seq!['/'] + rest;
    if rest.len() == 0 {
        assert(all =~= seq!['/']);
        assert(all.drop_last() =~= Seq::empty());
        assert(text::split(all.drop_last(), '/') =~= seq![Seq::<char>::empty()]);
        assert(text::split(rest, '/') =~= seq![Seq::<char>::empty()]);
        assert(text::split(all, '/') =~= seq![Seq::<char>::empty()] + text::split(rest, '/'));
    } else {
        assert(all.drop_last() =~= seq!['/'] + rest.drop_last());
        assert(all.last() == rest.last());
        lemma_split_leading(rest.drop_last());
        text::lemma_split_nonempty(rest.drop_last(), '/');
        assert(text::split(all, '/') =~= seq![Seq::<char>::empty()] + text::split(rest, '/'));
    }
}

proof fn lemma_reduced_behind_empty(parts: Seq<Seq<char>>)
    ensures
        reduced(seq![Seq::<char>::empty()] + parts) == reduced(parts),
    decreases parts.len(),
{
    let all = seq![Seq::<char>::empty()] + parts;
    if parts.len() == 0 {
        assert(all.drop_last() =~= Seq::empty());
        assert(all.last() == Seq::<char>::empty());
        assert(parts =~= Seq::empty());
        assert(reduced(all.drop_last()) =~= Seq::empty());
    } else {
        assert(all.drop_last() =~= seq![Seq::<char>::empty()] + parts.drop_last());
        assert(all.last() == parts.last());
        lemma_reduced_behind_empty(parts.drop_last());
    }
}

/// Normalizing twice is normalizing once.
pub proof fn law_normalize_idempotent(path: Seq<char>)
    ensures
        normalized(normalized(path)) == normalized(path),
{
    let kept = reduced(text::split(path, '/'));
    let rest = text::join(kept, seq!['/']);
    text::lemma_split_pieces(path, '/');
    lemma_reduced_are_steps(text::split(path, '/'));
    lemma_steps_of_steps(kept);
    if kept.len() > 0 {
        text::lemma_split_join(kept, '/');
    } else {
        assert(text::split(rest, '/') =~= seq![Seq::<char>::empty()]);
        let one = text::split(rest, '/');
        assert(one.drop_last() =~= Seq::empty());
        assert(reduced(one.drop_last()) =~= Seq::empty());
        assert(one.last().len() == 0);
        assert(reduced(text::split(rest, '/')) =~= Seq::empty());
    }
    assert(reduced(text::split(rest, '/')) =~= kept);
    if is_absolute(path) {
        lemma_split_leading(rest);
        lemma_reduced_behind_empty(text::split(rest, '/'));
    } else {
        assert(!is_absolute(rest)) by {
            if is_absolute(rest) {
                lemma_first_piece(rest);
                if kept.len() > 0 {
                    assert(is_step(kept[0]));
                }
            }
        }
    }
}

pub proof fn lemma_steps_behind_empty(parts: Seq<Seq<char>>)
    ensures
        steps(seq![Seq::<char>::empty()] + parts) == steps(parts),
    decreases parts.len(),
{
    let all = seq![Seq::<char>::empty()] + parts;
    if parts.len() == 0 {
        assert(all.drop_last() =~= Seq::empty());
        assert(all.last() == Seq::<char>::empty());
        assert(parts =~= Seq::empty());
        assert(steps(all.drop_last()) =~= Seq::empty());
    } else {
        assert(all.drop_last() =~= seq![Seq::<char>::empty()] + parts.drop_last());
        assert(all.last() == parts.last());
        lemma_steps_behind_empty(parts.drop_last());
    }
}

/// The components of an absolute path that is made of steps down.
proof fn lemma_absolute_parts(parts: Seq<Seq<char>>)
    requires
        forall|i: int| 0 <= i < parts.len() ==> is_step(#[trigger] parts[i]),
        forall|i: int| 0 <= i < parts.len() ==> !(#[trigger] parts[i]).contains('/'),
    ensures
        ({
            let path = seq!['/'] + text::join(parts, seq!['/']);
            &&& reduced(text::split(path, '/')) == parts
            &&& components(path) == parts
            &&& normalized(path) == path
        }),
{
    let rest = text::join(parts, seq!['/']);
    lemma_split_leading(rest);
    lemma_reduced_behind_empty(text::split(rest, '/'));
    lemma_steps_behind_empty(text::split(rest, '/'));
    lemma_steps_of_steps(parts);
    if parts.len() > 0 {
        text::lemma_split_join(parts, '/');
    } else {
        let one = text::split(rest, '/');
        assert(one =~= seq![Seq::<char>::empty()]);
        assert(one.drop_last() =~= Seq::empty());
        assert(one.last().len() == 0);
        assert(reduced(one.drop_last()) =~= Seq::empty());
        assert(steps(one.drop_last()) =~= Seq::empty());
        assert(reduced(one) =~= parts);
        assert(steps(one) =~= parts);
    }
}

proof fn lemma_join_concat(a: Seq<Seq<char>>, b: Seq<Seq<char>>, sep: Seq<char>)
    requires
        a.len() > 0,
        b.len() > 0,
    ensures
        text::join(a + b, sep) == text::join(a, sep) + sep + text::join(b, sep),
    decreases b.len(),
{
    let all = a + b;
    assert(all.last() == b.last());
    if b.len() == 1 {
        assert(all.drop_last() =~= a);
    } else {
        assert(all.drop_last() =~= a + b.drop_last());
        lemma_join_concat(a, b.drop_last(), sep);
        assert(text::join(all, sep) =~= text::join(a, sep) + sep + text::join(b, sep));
    }
}

/// A directory is the root as seen from itself.
pub proof fn lemma_relative_to_itself(path: Seq<char>)
    ensures
        relative(path, path) == Some(repo::root_path()),
{
    assert(components(path).take(components(path).len() as int) =~= components(path));
}

/// The pieces of two texts with a separator between them.
proof fn lemma_split_concat(a: Seq<char>, b: Seq<char>)
    ensures
        text::split(a + seq!['/'] + b, '/') == text::split(a, '/') + text::split(b, '/'),
    decreases b.len(),
{
    let all = a + seq!['/'] + b;
    if b.len() == 0 {
        assert(all.drop_last() =~= a);
        assert(text::split(b, '/') =~= seq![Seq::<char>::empty()]);
        assert(text::split(all, '/') =~= text::split(a, '/') + text::split(b, '/'));
    } else {
        assert(all.drop_last() =~= a + seq!['/'] + b.drop_last());
        assert(all.last() == b.last());
        lemma_split_concat(a, b.drop_last());
        text::lemma_split_nonempty(b.drop_last(), '/');
        assert(text::split(all, '/') =~= text::split(a, '/') + text::split(b, '/'));
    }
}

proof fn lemma_steps_concat(a: Seq<Seq<char>>, b: Seq<Seq<char>>)
    ensures
        steps(a + b) == steps(a) + steps(b),
    decreases b.len(),
{
    if b.len() == 0 {
        assert(a + b =~= a);
        assert(steps(a) + steps(b) =~= steps(a));
    } else {
        assert((a + b).drop_last() =~= a + b.drop_last());
        lemma_steps_concat(a, b.drop_last());
        assert(steps(a + b) =~= steps(a) + steps(b));
    }
}

/// The absolute form of a path of the tree, seen from the root again, is that path, whatever the
/// root looks like; the absolute form of the root path is the root.
pub proof fn law_relative_undoes_absolute(root: Seq<char>, path: Seq<char>)
    requires
        path == repo::root_path() || is_clean(path),
    ensures
        relative(root, repo::absolute_of(root, path)) == Some(path),
        repo::absolute_of(root, repo::root_path()) == root,
{
    if path == repo::root_path() {
        lemma_relative_to_itself(root);
    } else {
        let parts = text::split(path, '/');
        let whole = joined(root, path);
        lemma_clean_is_relative(path);
        lemma_steps_of_steps(parts);
        text::lemma_join_split(path, '/');
        text::lemma_split_nonempty(path, '/');
        if root.len() == 0 {
            let none = text::split(root, '/');
            assert(none =~= seq![Seq::<char>::empty()]);
            assert(none.drop_last() =~= Seq::empty());
            assert(steps(none.drop_last()) =~= Seq::empty());
            assert(components(root) =~= Seq::empty());
        } else if root.last() == '/' {
            let top = root.drop_last();
            assert(root =~= top + seq!['/']);
            assert(whole =~= top + seq!['/'] + path);
            lemma_split_concat(top, path);
            lemma_steps_concat(text::split(top, '/'), parts);
            assert(text::split(root, '/').drop_last() =~= text::split(top, '/'));
            assert(text::split(root, '/').last().len() == 0);
        } else {
            lemma_split_concat(root, path);
            lemma_steps_concat(text::split(root, '/'), parts);
        }
        assert(components(whole) =~= components(root) + parts);
        assert(components(whole).take(components(root).len() as int) =~= components(root));
        assert(components(whole).skip(components(root).len() as int) =~= parts);
    }
}

/// An absolute path below a directory is read as what it is from there.
pub proof fn law_absolute_paths_are_read_from_the_root(root: Seq<char>, path: Seq<char>)
    requires
        is_absolute(root),
        normalized(root) == root,
        is_clean(path),
    ensures
        relative(root, normalized(joined(root, path))) == Some(path),
{
    let top = reduced(text::split(root, '/'));
    let parts = text::split(path, '/');
    text::lemma_split_pieces(root, '/');
    lemma_reduced_are_steps(text::split(root, '/'));
    text::lemma_split_pieces(path, '/');
    text::lemma_split_nonempty(path, '/');
    text::lemma_join_split(path, '/');
    lemma_clean_is_relative(path);
    lemma_absolute_parts(top);
    let all = top + parts;
    assert forall|i: int| 0 <= i < all.len() implies is_step(#[trigger] all[i]) && !all[i].contains(
        '/',
    ) by {
        if i < top.len() {
            assert(is_step(top[i]) && !top[i].contains('/'));
        } else {
            assert(is_step(parts[i - top.len()]) && !parts[i - top.len()].contains('/'));
        }
    }
    lemma_absolute_parts(all);
    let whole = seq!['/'] + text::join(all, seq!['/']);
    if top.len() == 0 {
        assert(root =~= seq!['/']);
        assert(all =~= parts);
        assert(joined(root, path) =~= whole);
    } else {
        lemma_join_concat(top, parts, seq!['/']);
        assert(root.last() != '/') by {
            if root.last() == '/' {
                let base = text::join(top, seq!['/']);
                text::lemma_split_join(top, '/');
                assert(base.len() > 0 ==> base.last() == root.last());
                lemma_no_trailing_separator(base);
            }
        }
        assert(joined(root, path) =~= whole);
    }
    assert(all.take(top.len() as int) =~= top);
    assert(all.skip(top.len() as int) =~= parts);
}

/// A text whose last piece is not empty does not end in a separator.
proof fn lemma_no_trailing_separator(s: Seq<char>)
    requires
        is_step(text::split(s, '/').last()),
    ensures
        s.len() > 0,
        s.last() != '/',
{
    text::lemma_split_nonempty(s, '/');
    if s.len() > 0 && s.last() == '/' {
        assert(text::split(s, '/').last() =~= Seq::empty());
    }
}

} // verus!
