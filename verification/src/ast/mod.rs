//! AST-backed members: parse one supported source file and list its annotatable declarations.
//!
//! A member note is bound to content exactly like a file note, but the content is the declaration
//! itself: the symbol key (`<kind>:<qualified name>:<ordinal>`) plus the declaration's normalised
//! source text, hashed with the `tnt2` member scheme (see [`hash`]). Editing one method therefore
//! re-stales only that method's note; siblings stay fresh.
//!
//! The language registry is data: each adapter is a table of node kinds, so a new language is a new
//! module plus one [`Language`] entry, with no change to hashing, storage or output.
use crate::repo;
use crate::text;
use crate::{CmdError, CmdErrorModel};
use vstd::prelude::*;
use vstd::utf8::*;

pub mod grammar;
pub mod hash;
pub mod java;
pub mod javascript;
pub mod python;
pub mod rust;
pub mod typescript;

use grammar::{Grammar, SyntaxModel, SyntaxNode};

verus! {

// ---------------------------------------------------------------------------------------------
// Languages
// ---------------------------------------------------------------------------------------------

/// How a matched node becomes (or does not become) a member.
#[derive(Clone, Copy, Debug, PartialEq, Eq, Structural)]
pub enum MemberRule {
    /// The node itself is the member.
    Plain,
    /// The node is transparent: its children are visited in the same container, one level deeper.
    Transparent,
    /// The node is the member, but its kind, name and children come from its `definition` child
    /// (Python `decorated_definition`: the decorators are part of the hashed body).
    Decorated,
    /// The node is a member only when it binds a function or a constant.
    FunctionValue,
}

/// One node kind that becomes an annotatable member.
#[derive(Clone, Copy, Debug)]
pub struct MemberSpec {
    /// tree-sitter node kind, e.g. `method_declaration`.
    pub node_kind: &'static str,
    /// treenotes member kind: `method`, `function`, `class`, ...
    pub member_kind: &'static str,
    /// Field holding the name (`declarator.name` descends one field further); `None` falls back to
    /// the first identifier-like child, then to `<anonymous>` plus the ordinal.
    pub name_field: Option<&'static str>,
    /// How the matched node becomes a member.
    pub rule: MemberRule,
    /// When true the node is a container: its children (except `body_kind`) are visited with this
    /// member's name prepended to their qualified names.
    pub container: bool,
    /// Node kind whose subtree is skipped inside a container (e.g. `enum_body`), so container
    /// members do not silently become annotatable members themselves.
    pub body_kind: Option<&'static str>,
}

/// Model of a [`MemberSpec`].
#[verifier::ext_equal]
pub struct SpecModel {
    pub node_kind: Seq<char>,
    pub member_kind: Seq<char>,
    pub name_field: Option<Seq<char>>,
    pub rule: MemberRule,
    pub container: bool,
    pub body_kind: Option<Seq<char>>,
}

impl DeepView for MemberSpec {
    type V = SpecModel;

    open spec fn deep_view(&self) -> SpecModel {
        SpecModel {
            node_kind: self.node_kind@,
            member_kind: self.member_kind@,
            name_field: self.name_field.deep_view(),
            rule: self.rule,
            container: self.container,
            body_kind: self.body_kind.deep_view(),
        }
    }
}

/// One language treenotes can parse.
#[derive(Debug)]
pub struct Language {
    /// Stable language id: `java`, `rust`, `typescript`, `tsx`, `javascript`, `python`.
    pub id: &'static str,
    /// File extensions that select this language (lowercase, without the dot).
    pub extensions: Vec<&'static str>,
    /// The grammar of the language.
    pub grammar: Grammar,
    /// Separator used to join a container name with the names inside it.
    pub separator: &'static str,
    /// Node kinds that become annotatable members.
    pub members: Vec<MemberSpec>,
}

/// Model of a [`Language`].
#[verifier::ext_equal]
pub struct LanguageModel {
    pub id: Seq<char>,
    pub extensions: Seq<Seq<char>>,
    pub grammar: Grammar,
    pub separator: Seq<char>,
    pub members: Seq<SpecModel>,
}

impl DeepView for Language {
    type V = LanguageModel;

    open spec fn deep_view(&self) -> LanguageModel {
        LanguageModel {
            id: self.id@,
            extensions: self.extensions.deep_view(),
            grammar: self.grammar,
            separator: self.separator@,
            members: self.members.deep_view(),
        }
    }
}

/// A node kind that is a member itself, with its name in `name_field`.
pub open spec fn plain_model(
    node_kind: Seq<char>,
    member_kind: Seq<char>,
    name_field: Seq<char>,
    container: bool,
    body_kind: Option<Seq<char>>,
) -> SpecModel {
    SpecModel {
        node_kind,
        member_kind,
        name_field: Some(name_field),
        rule: MemberRule::Plain,
        container,
        body_kind,
    }
}

/// A node kind that is a member itself, with its name in `name_field`.
pub(crate) fn plain(
    node_kind: &'static str,
    member_kind: &'static str,
    name_field: &'static str,
    container: bool,
    body_kind: Option<&'static str>,
) -> (r: MemberSpec)
    ensures
        r.deep_view() == plain_model(
            node_kind@,
            member_kind@,
            name_field@,
            container,
            body_kind.deep_view(),
        ),
{
    MemberSpec {
        node_kind,
        member_kind,
        name_field: Some(name_field),
        rule: MemberRule::Plain,
        container,
        body_kind,
    }
}

/// A node kind with another rule, whose children are never visited as those of a container.
pub open spec fn ruled_model(
    node_kind: Seq<char>,
    member_kind: Seq<char>,
    name_field: Option<Seq<char>>,
    rule: MemberRule,
) -> SpecModel {
    SpecModel { node_kind, member_kind, name_field, rule, container: false, body_kind: None }
}

/// A node kind with another rule, whose children are never visited as those of a container.
pub(crate) fn ruled(
    node_kind: &'static str,
    member_kind: &'static str,
    name_field: Option<&'static str>,
    rule: MemberRule,
) -> (r: MemberSpec)
    ensures
        r.deep_view() == ruled_model(node_kind@, member_kind@, name_field.deep_view(), rule),
{
    MemberSpec { node_kind, member_kind, name_field, rule, container: false, body_kind: None }
}

/// Every language, in the order in which extensions are looked up.
pub open spec fn languages() -> Seq<LanguageModel> {
    seq![
        typescript::typescript_model(),
        typescript::tsx_model(),
        javascript::javascript_model(),
        java::java_model(),
        rust::rust_model(),
        python::python_model(),
    ]
}

/// Every language this build can parse.
pub fn registry() -> (r: Vec<Language>)
    ensures
        r.deep_view() == languages(),
{
    let r = vec![
        typescript::typescript(),
        typescript::tsx(),
        javascript::javascript(),
        java::java(),
        rust::rust(),
        python::python(),
    ];
    assert(r.deep_view() =~= languages());
    r
}

/// An ASCII uppercase letter in lowercase; every other character unchanged.
pub open spec fn lowered(c: char) -> char {
    if 'A' <= c <= 'Z' {
        (c as u32 + 32) as char
    } else {
        c
    }
}

/// The extension of a file name in lowercase: what follows its last dot, when something stands
/// before that dot.
pub open spec fn extension_of(path: Seq<char>) -> Option<Seq<char>> {
    let name = repo::name_of(path);
    let dot = text::last_index(name, '.');
    if dot <= 0 {
        None
    } else {
        let extension = name.skip(dot + 1);
        Some(Seq::new(extension.len(), |i: int| lowered(extension[i])))
    }
}

/// The first language, from the `i`-th on, that an extension selects.
pub open spec fn language_with(
    all: Seq<LanguageModel>,
    extension: Seq<char>,
    i: int,
) -> Option<LanguageModel>
    decreases all.len() - i,
{
    if i < 0 || i >= all.len() {
        None
    } else if all[i].extensions.contains(extension) {
        Some(all[i])
    } else {
        language_with(all, extension, i + 1)
    }
}

/// The language for a path.
pub open spec fn language_of(path: Seq<char>) -> Option<LanguageModel> {
    match extension_of(path) {
        Some(extension) => language_with(languages(), extension, 0),
        None => None,
    }
}

fn lower_char(c: char) -> (r: char)
    ensures
        r == lowered(c),
{
    if 'A' <= c && c <= 'Z' {
        ((c as u32 as u8) + 32u8) as char
    } else {
        c
    }
}

fn lower_text(s: &str) -> (r: String)
    ensures
        r@ == Seq::new(s@.len(), |i: int| lowered(s@[i])),
{
    let chars = text::chars_of(s);
    let mut out = String::new();
    let mut i: usize = 0;
    while i < chars.len()
        invariant
            i <= chars@.len(),
            chars@ == s@,
            out@ == Seq::new(i as nat, |k: int| lowered(s@[k])),
        decreases chars@.len() - i,
    {
        out.push(lower_char(chars[i]));
        assert(out@ =~= Seq::new((i + 1) as nat, |k: int| lowered(s@[k])));
        i += 1;
    }
    out
}

fn lists(texts: &Vec<&'static str>, wanted: &str) -> (r: bool)
    ensures
        r == texts.deep_view().contains(wanted@),
{
    let ghost all = texts.deep_view();
    let mut i: usize = 0;
    while i < texts.len()
        invariant
            i <= texts@.len(),
            all == texts.deep_view(),
            forall|k: int| 0 <= k < i ==> all[k] != wanted@,
        decreases texts@.len() - i,
    {
        assert(all[i as int] == texts@[i as int]@);
        if text::same(texts[i], wanted) {
            assert(all[i as int] == wanted@);
            return true;
        }
        i += 1;
    }
    false
}

/// The language for a repository-root relative path, chosen by its extension.
pub fn language_for_path(path: &str) -> (r: Option<Language>)
    ensures
        r.deep_view() == language_of(path@),
{
    let name = repo::last_component(path);
    proof {
        text::lemma_last_index(name@, '.');
    }
    match text::rsplit_once(name, '.') {
        None => None,
        Some((stem, extension)) => {
            if stem.is_empty() {
                return None;
            }
            let extension = lower_text(extension);
            let mut all = registry();
            let ghost models = all.deep_view();
            let mut i: usize = 0;
            while i < all.len()
                invariant
                    i <= all@.len(),
                    models == all.deep_view(),
                    models == languages(),
                    extension_of(path@) == Some(extension@),
                    language_of(path@) == language_with(models, extension@, i as int),
                decreases all@.len() - i,
            {
                assert(models[i as int] == all@[i as int].deep_view());
                if lists(&all[i].extensions, extension.as_str()) {
                    return Some(all.remove(i));
                }
                i += 1;
            }
            None
        },
    }
}

/// The `tnt2` scheme tag, so callers can recognise a member hash without duplicating the constant.
pub fn member_scheme() -> (r: &'static str)
    ensures
        r@ == hash::MEMBER_SCHEME@,
{
    hash::MEMBER_SCHEME
}

// ---------------------------------------------------------------------------------------------
// Members
// ---------------------------------------------------------------------------------------------

/// One annotatable declaration of a parsed file.
#[derive(Debug)]
pub struct Member {
    /// Symbol key, `<symbol-kind>:<qualified name>:<ordinal>`.
    pub symbol: String,
    /// treenotes member kind.
    pub symbol_kind: String,
    /// Declared name as written, unqualified.
    pub name: String,
    /// Name qualified by its container chain (`Cache.put`, `Foo::bar`, `outer.inner`).
    pub qualified_name: String,
    /// 1-based line of the declaration's first line (display metadata, never part of identity).
    pub start_line: usize,
    /// 1-based line of the declaration's last line (display metadata).
    pub end_line: usize,
    /// `tnt2:member:<hex>` hash of this declaration.
    pub hash: String,
}

/// Model of a [`Member`].
#[verifier::ext_equal]
pub struct MemberModel {
    pub symbol: Seq<char>,
    pub symbol_kind: Seq<char>,
    pub name: Seq<char>,
    pub qualified_name: Seq<char>,
    pub start_line: usize,
    pub end_line: usize,
    pub hash: Seq<char>,
}

impl DeepView for Member {
    type V = MemberModel;

    open spec fn deep_view(&self) -> MemberModel {
        MemberModel {
            symbol: self.symbol@,
            symbol_kind: self.symbol_kind@,
            name: self.name@,
            qualified_name: self.qualified_name@,
            start_line: self.start_line,
            end_line: self.end_line,
            hash: self.hash@,
        }
    }
}

impl Clone for Member {
    fn clone(&self) -> (r: Member)
        ensures
            r == *self,
    {
        Member {
            symbol: self.symbol.clone(),
            symbol_kind: self.symbol_kind.clone(),
            name: self.name.clone(),
            qualified_name: self.qualified_name.clone(),
            start_line: self.start_line,
            end_line: self.end_line,
            hash: self.hash.clone(),
        }
    }
}

/// Members of one file, plus whether the grammar had to recover from a syntax error.
#[derive(Debug)]
pub struct ParseResult {
    /// Members in document order.
    pub members: Vec<Member>,
    /// True when the parse tree contains an error (members are still listed from the recovered
    /// tree).
    pub parse_error: bool,
}

/// Model of a [`ParseResult`].
#[verifier::ext_equal]
pub struct ParseModel {
    pub members: Seq<MemberModel>,
    pub parse_error: bool,
}

impl DeepView for ParseResult {
    type V = ParseModel;

    open spec fn deep_view(&self) -> ParseModel {
        ParseModel { members: self.members.deep_view(), parse_error: self.parse_error }
    }
}

/// The source of a file whose bytes could be read: a file that is not UTF-8 is an environment
/// failure, never a silent gap.
pub fn read_source(bytes: &[u8], label: &str) -> (r: Result<String, CmdError>)
    ensures
        crate::outcome(r) == (match text::decoded(bytes@) {
            Some(source) => Ok::<Seq<char>, CmdErrorModel>(source),
            None => Err(
                crate::env_error(label@ + " is not valid UTF-8; treenotes refuses to drop it"@),
            ),
        }),
{
    match text::decode(bytes) {
        Some(source) => Ok(source),
        None => {
            let mut message = label.to_owned();
            message.append(" is not valid UTF-8; treenotes refuses to drop it");
            Err(CmdError::env(message.as_str()))
        },
    }
}

// ---------------------------------------------------------------------------------------------
// Walking the syntax tree
// ---------------------------------------------------------------------------------------------

/// A parsed file: its language, its text, and its syntax tree as rows in document order, each with
/// its depth in the tree.
pub struct Parsed {
    pub language: LanguageModel,
    pub source: Seq<char>,
    pub rows: Seq<SyntaxModel>,
}

/// The child that a node has in a field.
pub open spec fn field_child(rows: Seq<SyntaxModel>, i: int, field: Seq<char>) -> Option<int> {
    match grammar::field_entry(rows[i].fields, field, 0) {
        Some(c) => if i < c < grammar::subtree_end(rows, i) {
            Some(c as int)
        } else {
            None
        },
        None => None,
    }
}

/// The node that a sequence of fields leads to.
pub open spec fn field_path(
    rows: Seq<SyntaxModel>,
    i: int,
    fields: Seq<Seq<char>>,
) -> Option<int>
    decreases fields.len(),
{
    if fields.len() == 0 {
        Some(i)
    } else {
        match field_path(rows, i, fields.drop_last()) {
            Some(c) => field_child(rows, c, fields.last()),
            None => None,
        }
    }
}

/// The text of a byte range, when it begins and ends between characters.
pub open spec fn text_at(source: Seq<char>, start: int, end: int) -> Option<Seq<char>> {
    let bytes = encode_utf8(source);
    if start <= end && is_char_boundary(bytes, start) && is_char_boundary(
        bytes.skip(start),
        end - start,
    ) {
        Some(decode_utf8(bytes.subrange(start, end)))
    } else {
        None
    }
}

/// The text of a node.
pub open spec fn node_text(p: Parsed, i: int) -> Option<Seq<char>> {
    text_at(p.source, p.rows[i].start_byte as int, p.rows[i].end_byte as int)
}

/// The text of a node without surrounding whitespace, when something is left of it.
pub open spec fn node_name(p: Parsed, i: int) -> Option<Seq<char>> {
    match node_text(p, i) {
        Some(t) => if text::trimmed(t).len() > 0 {
            Some(text::trimmed(t))
        } else {
            None
        },
        None => None,
    }
}

/// Whether a node kind is that of a name.
pub open spec fn is_identifier_kind(kind: Seq<char>) -> bool {
    ||| kind == "identifier"@
    ||| kind == "type_identifier"@
    ||| kind == "property_identifier"@
    ||| kind == "field_identifier"@
}

/// The name of the first named child between `lo` and `hi` that is a name.
pub open spec fn identifier_between(p: Parsed, lo: int, hi: int) -> Option<Seq<char>>
    decreases p.rows.len() - lo,
{
    if lo < 0 || lo >= hi || lo >= p.rows.len() {
        None
    } else if p.rows[lo].named && is_identifier_kind(p.rows[lo].kind) && node_name(p, lo) is Some {
        node_name(p, lo)
    } else {
        proof {
            grammar::lemma_skip_deeper(p.rows, lo + 1, p.rows[lo].depth as int);
        }
        identifier_between(p, grammar::subtree_end(p.rows, lo), hi)
    }
}

/// The declared name of a node: that of the configured field, else that of the first child that is
/// a name, else `<anonymous>`.
pub open spec fn declared_name(p: Parsed, i: int, spec: SpecModel) -> Seq<char> {
    let configured = match spec.name_field {
        Some(path) => match field_path(p.rows, i, text::split(path, '.')) {
            Some(c) => node_name(p, c),
            None => None,
        },
        None => None,
    };
    match configured {
        Some(name) => name,
        None => match identifier_between(p, i + 1, grammar::subtree_end(p.rows, i)) {
            Some(name) => name,
            None => "<anonymous>"@,
        },
    }
}

/// A container chain and a name, joined with the language separator.
pub open spec fn qualified(
    parents: Seq<Seq<char>>,
    name: Seq<char>,
    separator: Seq<char>,
) -> Seq<char> {
    if parents.len() == 0 {
        name
    } else {
        text::join(parents, separator) + separator + name
    }
}

/// An ASCII uppercase letter.
pub open spec fn is_upper(c: char) -> bool {
    'A' <= c <= 'Z'
}

/// The name of a constant: at least one letter, and every character an uppercase letter, a digit
/// or an underscore.
pub open spec fn is_screaming(name: Seq<char>) -> bool {
    &&& exists|i: int| 0 <= i < name.len() && is_upper(#[trigger] name[i])
    &&& forall|i: int|
        0 <= i < name.len() ==> {
            ||| is_upper(#[trigger] name[i])
            ||| '0' <= name[i] <= '9'
            ||| name[i] == '_'
        }
}

/// Whether a node kind is that of a function as a value.
pub open spec fn is_function_kind(kind: Seq<char>) -> bool {
    ||| kind == "arrow_function"@
    ||| kind == "function"@
    ||| kind == "function_expression"@
    ||| kind == "lambda"@
}

/// Whether a node binds a function: a declarator whose initializer is one, or an assignment to a
/// plain identifier that is the name of a constant or whose value is a `lambda`.
pub open spec fn is_binding(p: Parsed, i: int) -> bool {
    ||| (field_child(p.rows, i, "value"@) matches Some(c) && is_function_kind(p.rows[c].kind))
    ||| (field_child(p.rows, i, "left"@) matches Some(c) && p.rows[c].kind == "identifier"@ && {
        ||| (node_text(p, c) matches Some(name) && is_screaming(name))
        ||| (field_child(p.rows, i, "right"@) matches Some(v) && p.rows[v].kind == "lambda"@)
    })
}

/// The number of members with this kind and qualified name.
pub open spec fn ordinal(
    members: Seq<MemberModel>,
    kind: Seq<char>,
    qualified_name: Seq<char>,
) -> nat
    decreases members.len(),
{
    if members.len() == 0 {
        0
    } else {
        let before = ordinal(members.drop_last(), kind, qualified_name);
        if members.last().symbol_kind == kind && members.last().qualified_name == qualified_name {
            before + 1
        } else {
            before
        }
    }
}

/// The 1-based number of a 0-based row.
pub open spec fn line_of(row: usize) -> usize {
    if row < usize::MAX {
        (row + 1) as usize
    } else {
        row
    }
}

/// A symbol key.
pub open spec fn symbol_key(
    kind: Seq<char>,
    qualified_name: Seq<char>,
    ordinal: nat,
) -> Seq<char> {
    kind + ":"@ + qualified_name + ":"@ + text::decimal(ordinal)
}

/// The members with the declaration at a node recorded as one more.
pub open spec fn recorded(
    p: Parsed,
    i: int,
    member_kind: Seq<char>,
    name: Seq<char>,
    qualified_name: Seq<char>,
    members: Seq<MemberModel>,
) -> Seq<MemberModel> {
    let kind = if member_kind == "method"@ && name == "constructor"@ {
        "constructor"@
    } else {
        member_kind
    };
    let symbol = symbol_key(kind, qualified_name, ordinal(members, kind, qualified_name));
    let body = match node_text(p, i) {
        Some(t) => t,
        None => Seq::empty(),
    };
    members.push(
        MemberModel {
            symbol,
            symbol_kind: kind,
            name,
            qualified_name,
            start_line: line_of(p.rows[i].start_row),
            end_line: line_of(p.rows[i].end_row),
            hash: hash::member_hash(symbol, body),
        },
    )
}

/// The rule for a node kind.
pub open spec fn rule_for(specs: Seq<SpecModel>, node_kind: Seq<char>, i: int) -> Option<SpecModel>
    decreases specs.len() - i,
{
    if i < 0 || i >= specs.len() {
        None
    } else if specs[i].node_kind == node_kind {
        Some(specs[i])
    } else {
        rule_for(specs, node_kind, i + 1)
    }
}

/// The definition inside a decorated node, with its rule.
pub open spec fn decorated(p: Parsed, i: int) -> Option<(int, SpecModel)> {
    match field_child(p.rows, i, "definition"@) {
        Some(c) => match rule_for(p.language.members, p.rows[c].kind, 0) {
            Some(spec) => Some((c, spec)),
            None => None,
        },
        None => None,
    }
}

/// The members with those of a node and of what is below it.
pub open spec fn visited(
    p: Parsed,
    i: int,
    parents: Seq<Seq<char>>,
    inside_function: bool,
    members: Seq<MemberModel>,
) -> Seq<MemberModel>
    decreases p.rows.len() - i, 0int,
    when 0 <= i < p.rows.len()
{
    let separator = p.language.separator;
    let end = grammar::subtree_end(p.rows, i);
    match rule_for(p.language.members, p.rows[i].kind, 0) {
        None => descended(p, i + 1, end, parents, None, inside_function, members),
        Some(spec) => match spec.rule {
            MemberRule::Transparent => descended(
                p,
                i + 1,
                end,
                parents,
                None,
                inside_function,
                members,
            ),
            MemberRule::Decorated => match decorated(p, i) {
                None => descended(p, i + 1, end, parents, None, inside_function, members),
                Some((c, inner)) => {
                    let name = declared_name(p, c, inner);
                    proof {
                        grammar::lemma_skip_deeper(p.rows, i + 1, p.rows[i].depth as int);
                    }
                    descended(
                        p,
                        c + 1,
                        grammar::subtree_end(p.rows, c),
                        parents.push(name),
                        inner.body_kind,
                        inside_function || inner.member_kind == "function"@,
                        recorded(
                            p,
                            i,
                            inner.member_kind,
                            name,
                            qualified(parents, name, separator),
                            members,
                        ),
                    )
                },
            },
            MemberRule::FunctionValue => if !inside_function && is_binding(p, i) {
                let name = declared_name(p, i, spec);
                recorded(
                    p,
                    i,
                    spec.member_kind,
                    name,
                    qualified(parents, name, separator),
                    members,
                )
            } else {
                members
            },
            MemberRule::Plain => {
                let name = declared_name(p, i, spec);
                let own = recorded(
                    p,
                    i,
                    spec.member_kind,
                    name,
                    qualified(parents, name, separator),
                    members,
                );
                if spec.container {
                    descended(
                        p,
                        i + 1,
                        end,
                        parents.push(name),
                        spec.body_kind,
                        inside_function || spec.member_kind == "function"@,
                        own,
                    )
                } else {
                    own
                }
            },
        },
    }
}

/// The members with those of the named nodes between `lo` and `hi` that are not of the kind to be
/// skipped.
pub open spec fn descended(
    p: Parsed,
    lo: int,
    hi: int,
    parents: Seq<Seq<char>>,
    skipped: Option<Seq<char>>,
    inside_function: bool,
    members: Seq<MemberModel>,
) -> Seq<MemberModel>
    decreases p.rows.len() - lo, 1int,
{
    if lo < 0 || lo >= hi || lo >= p.rows.len() {
        members
    } else {
        let own = if p.rows[lo].named && skipped != Some(p.rows[lo].kind) {
            visited(p, lo, parents, inside_function, members)
        } else {
            members
        };
        proof {
            grammar::lemma_skip_deeper(p.rows, lo + 1, p.rows[lo].depth as int);
        }
        descended(p, grammar::subtree_end(p.rows, lo), hi, parents, skipped, inside_function, own)
    }
}

/// The members of a parsed file, in document order.
pub open spec fn collected(p: Parsed) -> ParseModel {
    if p.rows.len() == 0 {
        ParseModel { members: Seq::empty(), parse_error: false }
    } else {
        ParseModel {
            members: visited(p, 0, Seq::empty(), false, Seq::empty()),
            parse_error: p.rows[0].error,
        }
    }
}

// ---------------------------------------------------------------------------------------------
// Collecting the members
// ---------------------------------------------------------------------------------------------

/// Python constant rule: at least one letter, and every character uppercase, digit or underscore.
fn is_screaming_case(name: &str) -> (r: bool)
    ensures
        r == is_screaming(name@),
{
    let chars = text::chars_of(name);
    let mut has_letter = false;
    let mut i: usize = 0;
    while i < chars.len()
        invariant
            i <= chars@.len(),
            chars@ == name@,
            has_letter == exists|k: int| 0 <= k < i && is_upper(#[trigger] name@[k]),
            forall|k: int|
                0 <= k < i ==> {
                    ||| is_upper(#[trigger] name@[k])
                    ||| '0' <= name@[k] <= '9'
                    ||| name@[k] == '_'
                },
        decreases chars@.len() - i,
    {
        let c = chars[i];
        if 'A' <= c && c <= 'Z' {
            assert(is_upper(name@[i as int]));
            has_letter = true;
        } else if !('0' <= c && c <= '9') && c != '_' {
            assert(!is_upper(name@[i as int]));
            return false;
        }
        i += 1;
    }
    has_letter
}

/// Join a container chain and a display name with the language separator.
fn qualify(parents: &Vec<String>, name: &str, separator: &str) -> (r: String)
    ensures
        r@ == qualified(parents.deep_view(), name@, separator@),
{
    assert(parents.deep_view().len() == parents@.len());
    if parents.len() == 0 {
        name.to_owned()
    } else {
        let mut out = text::join_text(parents, separator);
        out.append(separator);
        out.append(name);
        out
    }
}

/// The text of a byte range, when it begins and ends between characters.
fn source_text(source: &str, start: usize, end: usize) -> (r: Option<&str>)
    ensures
        match r {
            Some(t) => text_at(source@, start as int, end as int) == Some(t@),
            None => text_at(source@, start as int, end as int) is None,
        },
{
    if start > end || !source.is_char_boundary(start) {
        return None;
    }
    let ghost bytes = encode_utf8(source@);
    let (_, tail) = source.split_at(start);
    proof {
        encode_utf8_valid_utf8(source@);
        lemma_boundary_in_range(bytes, start as int);
        assert(encode_utf8(tail@) =~= bytes.skip(start as int));
    }
    if !tail.is_char_boundary(end - start) {
        return None;
    }
    let (t, _) = tail.split_at(end - start);
    proof {
        encode_utf8_valid_utf8(tail@);
        lemma_boundary_in_range(encode_utf8(tail@), end - start);
        assert(encode_utf8(t@) =~= bytes.subrange(start as int, end as int));
        encode_utf8_decode_utf8(t@);
    }
    Some(t)
}

proof fn lemma_boundary_in_range(bytes: Seq<u8>, index: int)
    requires
        valid_utf8(bytes),
        is_char_boundary(bytes, index),
    ensures
        0 <= index <= bytes.len(),
{
}

/// Depth-first member collector over the rows of a syntax tree.
struct Collector<'a> {
    language: &'a Language,
    source: &'a str,
    rows: &'a Vec<SyntaxNode>,
}

impl<'a> Collector<'a> {
    spec fn model(&self) -> Parsed {
        Parsed {
            language: self.language.deep_view(),
            source: self.source@,
            rows: self.rows.deep_view(),
        }
    }

    fn rule(&self, node_kind: &str) -> (r: Option<MemberSpec>)
        ensures
            r.deep_view() == rule_for(self.model().language.members, node_kind@, 0),
    {
        let ghost all = self.model().language.members;
        let mut i: usize = 0;
        while i < self.language.members.len()
            invariant
                i <= self.language.members@.len(),
                all == self.language.members.deep_view(),
                rule_for(all, node_kind@, 0) == rule_for(all, node_kind@, i as int),
            decreases self.language.members@.len() - i,
        {
            assert(all[i as int] == self.language.members@[i as int].deep_view());
            if text::same(self.language.members[i].node_kind, node_kind) {
                return Some(self.language.members[i]);
            }
            i += 1;
        }
        None
    }

    fn end_of(&self, i: usize) -> (r: usize)
        requires
            i < self.rows@.len(),
        ensures
            r == grammar::subtree_end(self.model().rows, i as int),
            i < r <= self.rows@.len(),
    {
        grammar::end_of(self.rows, i)
    }

    fn child(&self, i: usize, field: &str) -> (r: Option<usize>)
        requires
            i < self.rows@.len(),
        ensures
            match r {
                Some(c) => field_child(self.model().rows, i as int, field@) == Some(c as int) && i
                    < c < self.rows@.len(),
                None => field_child(self.model().rows, i as int, field@) is None,
            },
    {
        assert(self.model().rows[i as int] == self.rows@[i as int].deep_view());
        match grammar::find_field(&self.rows[i].fields, field) {
            Some(c) => if i < c && c < self.end_of(i) {
                Some(c)
            } else {
                None
            },
            None => None,
        }
    }

    fn text_of(&self, i: usize) -> (r: Option<&str>)
        requires
            i < self.rows@.len(),
        ensures
            match r {
                Some(t) => node_text(self.model(), i as int) == Some(t@),
                None => node_text(self.model(), i as int) is None,
            },
    {
        assert(self.model().rows[i as int] == self.rows@[i as int].deep_view());
        source_text(self.source, self.rows[i].start_byte, self.rows[i].end_byte)
    }

    fn name_at(&self, i: usize) -> (r: Option<String>)
        requires
            i < self.rows@.len(),
        ensures
            r.deep_view() == node_name(self.model(), i as int),
    {
        match self.text_of(i) {
            Some(t) => {
                let name = text::trim(t);
                if name.is_empty() {
                    None
                } else {
                    Some(name.to_owned())
                }
            },
            None => None,
        }
    }

    fn follow(&self, i: usize, path: &str) -> (r: Option<usize>)
        requires
            i < self.rows@.len(),
        ensures
            match r {
                Some(c) => field_path(self.model().rows, i as int, text::split(path@, '.'))
                    == Some(c as int) && c < self.rows@.len(),
                None => field_path(self.model().rows, i as int, text::split(path@, '.')) is None,
            },
    {
        let fields = text::split_text(path, '.');
        let ghost all = fields.deep_view();
        let mut current: usize = i;
        let mut k: usize = 0;
        assert(all.take(0) =~= Seq::empty());
        while k < fields.len()
            invariant
                k <= fields@.len(),
                all == fields.deep_view(),
                all == text::split(path@, '.'),
                current < self.rows@.len(),
                field_path(self.model().rows, i as int, all.take(k as int)) == Some(
                    current as int,
                ),
            decreases fields@.len() - k,
        {
            proof {
                assert(all.take(k + 1).drop_last() =~= all.take(k as int));
                assert(all.take(k + 1).last() == fields@[k as int]@);
            }
            match self.child(current, fields[k].as_str()) {
                Some(c) => {
                    current = c;
                },
                None => {
                    proof {
                        lemma_path_stuck(self.model().rows, i as int, all, k + 1);
                    }
                    return None;
                },
            }
            k += 1;
        }
        assert(all.take(all.len() as int) =~= all);
        Some(current)
    }

    fn identifier(&self, i: usize) -> (r: Option<String>)
        requires
            i < self.rows@.len(),
        ensures
            r.deep_view() == identifier_between(
                self.model(),
                i + 1,
                grammar::subtree_end(self.model().rows, i as int),
            ),
    {
        let ghost p = self.model();
        let end = self.end_of(i);
        let mut lo: usize = i + 1;
        while lo < end
            invariant
                i < lo,
                end <= self.rows@.len(),
                p == self.model(),
                end == grammar::subtree_end(p.rows, i as int),
                identifier_between(p, i + 1, end as int) == identifier_between(
                    p,
                    lo as int,
                    end as int,
                ),
            decreases self.rows@.len() - lo,
        {
            assert(p.rows[lo as int] == self.rows@[lo as int].deep_view());
            let kind = self.rows[lo].kind.as_str();
            if self.rows[lo].named && (text::same(kind, "identifier") || text::same(
                kind,
                "type_identifier",
            ) || text::same(kind, "property_identifier") || text::same(kind, "field_identifier")) {
                let name = self.name_at(lo);
                if name.is_some() {
                    return name;
                }
            }
            lo = self.end_of(lo);
        }
        None
    }

    /// The declared name: the configured field path, else the first identifier-like child.
    fn resolve_name(&self, i: usize, spec: &MemberSpec) -> (r: String)
        requires
            i < self.rows@.len(),
        ensures
            r@ == declared_name(self.model(), i as int, spec.deep_view()),
    {
        if let Some(path) = spec.name_field {
            if let Some(c) = self.follow(i, path) {
                if let Some(name) = self.name_at(c) {
                    return name;
                }
            }
        }
        match self.identifier(i) {
            Some(name) => name,
            None => "<anonymous>".to_owned(),
        }
    }

    /// True when a [`MemberRule::FunctionValue`] node binds a function: a TypeScript/JavaScript
    /// `variable_declarator` whose initializer is a function, or a Python `NAME = ...`/`x = lambda`
    /// assignment.
    fn binds_function(&self, i: usize) -> (r: bool)
        requires
            i < self.rows@.len(),
        ensures
            r == is_binding(self.model(), i as int),
    {
        let ghost p = self.model();
        if let Some(c) = self.child(i, "value") {
            assert(p.rows[c as int] == self.rows@[c as int].deep_view());
            let kind = self.rows[c].kind.as_str();
            if text::same(kind, "arrow_function") || text::same(kind, "function") || text::same(
                kind,
                "function_expression",
            ) || text::same(kind, "lambda") {
                return true;
            }
        }
        if let Some(c) = self.child(i, "left") {
            assert(p.rows[c as int] == self.rows@[c as int].deep_view());
            if text::same(self.rows[c].kind.as_str(), "identifier") {
                if let Some(name) = self.text_of(c) {
                    if is_screaming_case(name) {
                        return true;
                    }
                }
                if let Some(v) = self.child(i, "right") {
                    assert(p.rows[v as int] == self.rows@[v as int].deep_view());
                    if text::same(self.rows[v].kind.as_str(), "lambda") {
                        return true;
                    }
                }
            }
        }
        false
    }

    /// Record one member: assign its ordinal, build its symbol key and hash its own text.
    fn record(
        &self,
        i: usize,
        member_kind: &str,
        name: &str,
        qualified_name: &str,
        members: &mut Vec<Member>,
    )
        requires
            i < self.rows@.len(),
        ensures
            final(members).deep_view() == recorded(
                self.model(),
                i as int,
                member_kind@,
                name@,
                qualified_name@,
                old(members).deep_view(),
            ),
    {
        let ghost before = members.deep_view();
        let symbol_kind = if text::same(member_kind, "method") && text::same(name, "constructor") {
            "constructor"
        } else {
            member_kind
        };
        let mut count: usize = 0;
        let mut k: usize = 0;
        while k < members.len()
            invariant
                k <= members@.len(),
                before == members.deep_view(),
                count <= k,
                count == ordinal(before.take(k as int), symbol_kind@, qualified_name@),
            decreases members@.len() - k,
        {
            proof {
                assert(before.take(k + 1).drop_last() =~= before.take(k as int));
                assert(before.take(k + 1).last() == members@[k as int].deep_view());
            }
            if text::same(members[k].symbol_kind.as_str(), symbol_kind) && text::same(
                members[k].qualified_name.as_str(),
                qualified_name,
            ) {
                count += 1;
            }
            k += 1;
        }
        assert(before.take(before.len() as int) =~= before);
        let mut symbol = symbol_kind.to_owned();
        symbol.append(":");
        symbol.append(qualified_name);
        symbol.append(":");
        symbol.append(text::decimal_text(count as u64).as_str());
        let body = match self.text_of(i) {
            Some(t) => t,
            None => {
                proof {
                    reveal_strlit("");
                    assert(""@ =~= Seq::<char>::empty());
                }
                ""
            },
        };
        assert(self.model().rows[i as int] == self.rows@[i as int].deep_view());
        let member = Member {
            hash: hash::symbol_hash(symbol.as_str(), body),
            symbol,
            symbol_kind: symbol_kind.to_owned(),
            name: name.to_owned(),
            qualified_name: qualified_name.to_owned(),
            start_line: line(self.rows[i].start_row),
            end_line: line(self.rows[i].end_row),
        };
        let ghost model = member.deep_view();
        members.push(member);
        assert(members.deep_view() =~= before.push(model));
    }

    /// Visit one node.
    fn visit(
        &self,
        i: usize,
        parents: &Vec<String>,
        inside_function: bool,
        members: &mut Vec<Member>,
    )
        requires
            i < self.rows@.len(),
        ensures
            final(members).deep_view() == visited(
                self.model(),
                i as int,
                parents.deep_view(),
                inside_function,
                old(members).deep_view(),
            ),
        decreases self.rows@.len() - i, 0int,
    {
        let ghost p = self.model();
        assert(p.rows[i as int] == self.rows@[i as int].deep_view());
        let end = self.end_of(i);
        let spec = match self.rule(self.rows[i].kind.as_str()) {
            Some(spec) => spec,
            None => {
                self.descend(i + 1, end, parents, None, inside_function, members);
                return ;
            },
        };
        match spec.rule {
            MemberRule::Transparent => {
                self.descend(i + 1, end, parents, None, inside_function, members);
            },
            MemberRule::Decorated => {
                let inner = match self.child(i, "definition") {
                    Some(c) => {
                        assert(p.rows[c as int] == self.rows@[c as int].deep_view());
                        match self.rule(self.rows[c].kind.as_str()) {
                            Some(inner) => Some((c, inner)),
                            None => None,
                        }
                    },
                    None => None,
                };
                match inner {
                    None => {
                        self.descend(i + 1, end, parents, None, inside_function, members);
                    },
                    Some((c, inner)) => {
                        let name = self.resolve_name(c, &inner);
                        let qualified_name = qualify(
                            parents,
                            name.as_str(),
                            self.language.separator,
                        );
                        self.record(
                            i,
                            inner.member_kind,
                            name.as_str(),
                            qualified_name.as_str(),
                            members,
                        );
                        let children = extend_chain(parents, name);
                        let nested = inside_function || text::same(inner.member_kind, "function");
                        let inner_end = self.end_of(c);
                        self.descend(
                            c + 1,
                            inner_end,
                            &children,
                            inner.body_kind,
                            nested,
                            members,
                        );
                    },
                }
            },
            // Constants are module/class-level only: a `TIMEOUT = 5` local inside a function body
            // is an implementation detail, not an addressable declaration.
            MemberRule::FunctionValue => {
                if !inside_function && self.binds_function(i) {
                    let name = self.resolve_name(i, &spec);
                    let qualified_name = qualify(parents, name.as_str(), self.language.separator);
                    self.record(
                        i,
                        spec.member_kind,
                        name.as_str(),
                        qualified_name.as_str(),
                        members,
                    );
                }
            },
            MemberRule::Plain => {
                let name = self.resolve_name(i, &spec);
                let qualified_name = qualify(parents, name.as_str(), self.language.separator);
                self.record(
                    i,
                    spec.member_kind,
                    name.as_str(),
                    qualified_name.as_str(),
                    members,
                );
                if spec.container {
                    let children = extend_chain(parents, name);
                    let nested = inside_function || text::same(spec.member_kind, "function");
                    self.descend(i + 1, end, &children, spec.body_kind, nested, members);
                }
            },
        }
    }

    /// Visit the named nodes between `lo` and `hi`, skipping `body_kind`.
    fn descend(
        &self,
        lo: usize,
        hi: usize,
        parents: &Vec<String>,
        body_kind: Option<&'static str>,
        inside_function: bool,
        members: &mut Vec<Member>,
    )
        requires
            hi <= self.rows@.len(),
        ensures
            final(members).deep_view() == descended(
                self.model(),
                lo as int,
                hi as int,
                parents.deep_view(),
                body_kind.deep_view(),
                inside_function,
                old(members).deep_view(),
            ),
        decreases self.rows@.len() - lo, 1int,
    {
        let ghost p = self.model();
        let ghost chain = parents.deep_view();
        let ghost skipped = body_kind.deep_view();
        let ghost all = descended(
            p,
            lo as int,
            hi as int,
            chain,
            skipped,
            inside_function,
            members.deep_view(),
        );
        let mut at: usize = lo;
        while at < hi
            invariant
                lo <= at,
                hi <= self.rows@.len(),
                p == self.model(),
                chain == parents.deep_view(),
                skipped == body_kind.deep_view(),
                all == descended(
                    p,
                    at as int,
                    hi as int,
                    chain,
                    skipped,
                    inside_function,
                    members.deep_view(),
                ),
            decreases self.rows@.len() - at,
        {
            assert(p.rows[at as int] == self.rows@[at as int].deep_view());
            let skip = match body_kind {
                Some(kind) => text::same(kind, self.rows[at].kind.as_str()),
                None => false,
            };
            if self.rows[at].named && !skip {
                self.visit(at, parents, inside_function, members);
            }
            at = self.end_of(at);
        }
    }
}

/// A path of fields that leads nowhere stays so however it goes on.
proof fn lemma_path_stuck(rows: Seq<SyntaxModel>, i: int, fields: Seq<Seq<char>>, n: int)
    requires
        0 <= n <= fields.len(),
        field_path(rows, i, fields.take(n)) is None,
    ensures
        field_path(rows, i, fields) is None,
    decreases fields.len(),
{
    if n < fields.len() {
        assert(fields.drop_last().take(n) =~= fields.take(n));
        lemma_path_stuck(rows, i, fields.drop_last(), n);
    } else {
        assert(fields.take(n) =~= fields);
    }
}

fn line(row: usize) -> (r: usize)
    ensures
        r == line_of(row),
{
    if row < usize::MAX {
        row + 1
    } else {
        row
    }
}

fn extend_chain(parents: &Vec<String>, name: String) -> (r: Vec<String>)
    ensures
        r.deep_view() == parents.deep_view().push(name@),
{
    let ghost model = name@;
    let mut children = parents.clone();
    assert(children.deep_view() =~= parents.deep_view());
    children.push(name);
    assert(children.deep_view() =~= parents.deep_view().push(model));
    children
}

/// The members of a file from its syntax tree, given as rows in document order.
pub fn collect_members(language: &Language, source: &str, rows: &Vec<SyntaxNode>) -> (r:
    ParseResult)
    ensures
        r.deep_view() == collected(
            Parsed {
                language: language.deep_view(),
                source: source@,
                rows: rows.deep_view(),
            },
        ),
{
    let mut members: Vec<Member> = Vec::new();
    assert(members.deep_view() =~= Seq::<MemberModel>::empty());
    if rows.len() == 0 {
        return ParseResult { members, parse_error: false };
    }
    let collector = Collector { language, source, rows };
    let parents: Vec<String> = Vec::new();
    assert(parents.deep_view() =~= Seq::<Seq<char>>::empty());
    collector.visit(0, &parents, false, &mut members);
    assert(rows.deep_view()[0] == rows@[0].deep_view());
    ParseResult { members, parse_error: rows[0].error }
}

/// What a file comes to when it is parsed as `language`.
pub open spec fn parsed_members(language: LanguageModel, source: Seq<char>) -> Result<
    ParseModel,
    CmdErrorModel,
> {
    match grammar::parse_outcome(grammar::grammar_name(language.grammar), source) {
        Err(why) => Err(
            crate::env_error("cannot load the "@ + language.id + " grammar: "@ + why),
        ),
        Ok(None) => Err(
            crate::env_error("cannot parse this file with the "@ + language.id + " grammar"@),
        ),
        Ok(Some((rows, fields))) => Ok(
            collected(Parsed { language, source, rows: grammar::syntax_of(rows, fields) }),
        ),
    }
}

/// Parse `source` with `language` and list its members in document order.
pub fn parse_members(language: &Language, source: &str) -> (r: Result<ParseResult, CmdError>)
    ensures
        crate::outcome(r) == parsed_members(language.deep_view(), source@),
{
    match grammar::syntax_tree(language.grammar, source) {
        Err(why) => {
            let mut message = "cannot load the ".to_owned();
            message.append(language.id);
            message.append(" grammar: ");
            message.append(why.as_str());
            Err(CmdError::env(message.as_str()))
        },
        Ok(None) => {
            let mut message = "cannot parse this file with the ".to_owned();
            message.append(language.id);
            message.append(" grammar");
            Err(CmdError::env(message.as_str()))
        },
        Ok(Some(rows)) => Ok(collect_members(language, source, &rows)),
    }
}

// ---------------------------------------------------------------------------------------------
// What a list of members is
// ---------------------------------------------------------------------------------------------

/// Whether `at` says for each member which row it was recorded from: rows in document order, the
/// lines of the row, a symbol key with the number of earlier members of the same kind and name as
/// its ordinal, and the hash of the row's own text under that key.
pub open spec fn recorded_from(
    p: Parsed,
    members: Seq<MemberModel>,
    at: Seq<int>,
) -> bool {
    &&& at.len() == members.len()
    &&& forall|k: int| 0 <= k < at.len() ==> 0 <= #[trigger] at[k] < p.rows.len()
    &&& forall|j: int, k: int| 0 <= j < k < at.len() ==> #[trigger] at[j] < #[trigger] at[k]
    &&& forall|k: int| 0 <= k < members.len() ==> #[trigger] member_of_row(p, members, k, at[k])
}

/// Whether the `k`-th member is the declaration at a row.
pub open spec fn member_of_row(p: Parsed, members: Seq<MemberModel>, k: int, row: int) -> bool {
    let m = members[k];
    let body = match node_text(p, row) {
        Some(t) => t,
        None => Seq::empty(),
    };
    &&& m.symbol == symbol_key(
        m.symbol_kind,
        m.qualified_name,
        ordinal(members.take(k), m.symbol_kind, m.qualified_name),
    )
    &&& m.hash == hash::member_hash(m.symbol, body)
    &&& m.start_line == line_of(p.rows[row].start_row)
    &&& m.end_line == line_of(p.rows[row].end_row)
    &&& (m.symbol_kind == "constructor"@ || exists|s: int|
        0 <= s < p.language.members.len() && m.symbol_kind == (
        #[trigger] p.language.members[s]).member_kind)
}

proof fn lemma_rule_for(specs: Seq<SpecModel>, node_kind: Seq<char>, i: int) -> (s: int)
    requires
        0 <= i,
        rule_for(specs, node_kind, i) is Some,
    ensures
        i <= s < specs.len(),
        rule_for(specs, node_kind, i) == Some(specs[s]),
    decreases specs.len() - i,
{
    if specs[i].node_kind == node_kind {
        i
    } else {
        lemma_rule_for(specs, node_kind, i + 1)
    }
}

/// One more member keeps the earlier ones what they are.
proof fn lemma_recorded(
    p: Parsed,
    i: int,
    spec: int,
    name: Seq<char>,
    qualified_name: Seq<char>,
    members: Seq<MemberModel>,
    at: Seq<int>,
)
    requires
        recorded_from(p, members, at),
        0 <= i < p.rows.len(),
        forall|k: int| 0 <= k < at.len() ==> #[trigger] at[k] < i,
        0 <= spec < p.language.members.len(),
    ensures
        recorded_from(
            p,
            recorded(
                p,
                i,
                p.language.members[spec].member_kind,
                name,
                qualified_name,
                members,
            ),
            at.push(i),
        ),
{
    let out = recorded(
        p,
        i,
        p.language.members[spec].member_kind,
        name,
        qualified_name,
        members,
    );
    let rows = at.push(i);
    assert forall|k: int| 0 <= k < out.len() implies #[trigger] member_of_row(
        p,
        out,
        k,
        rows[k],
    ) by {
        if k < members.len() {
            assert(member_of_row(p, members, k, at[k]));
            assert(out.take(k) =~= members.take(k));
            assert(out[k] == members[k]);
        } else {
            assert(out.take(k) =~= members);
            assert(p.language.members[spec].member_kind == p.language.members[spec].member_kind);
        }
    }
}

proof fn lemma_visited(
    p: Parsed,
    i: int,
    parents: Seq<Seq<char>>,
    inside_function: bool,
    members: Seq<MemberModel>,
    at: Seq<int>,
) -> (r: Seq<int>)
    requires
        0 <= i < p.rows.len(),
        recorded_from(p, members, at),
        forall|k: int| 0 <= k < at.len() ==> #[trigger] at[k] < i,
    ensures
        recorded_from(p, visited(p, i, parents, inside_function, members), r),
        forall|k: int|
            0 <= k < r.len() ==> #[trigger] r[k] < grammar::subtree_end(p.rows, i),
    decreases p.rows.len() - i, 0int,
{
    let end = grammar::subtree_end(p.rows, i);
    let separator = p.language.separator;
    grammar::lemma_skip_deeper(p.rows, i + 1, p.rows[i].depth as int);
    let depth = p.rows[i].depth as int;
    match rule_for(p.language.members, p.rows[i].kind, 0) {
        None => lemma_descended(p, i + 1, end, parents, None, inside_function, members, at, depth),
        Some(spec) => {
            let s = lemma_rule_for(p.language.members, p.rows[i].kind, 0);
            match spec.rule {
                MemberRule::Transparent => lemma_descended(
                    p,
                    i + 1,
                    end,
                    parents,
                    None,
                    inside_function,
                    members,
                    at,
                    depth,
                ),
                MemberRule::Decorated => match decorated(p, i) {
                    None => lemma_descended(
                        p,
                        i + 1,
                        end,
                        parents,
                        None,
                        inside_function,
                        members,
                        at,
                        depth,
                    ),
                    Some((c, inner)) => {
                        let t = lemma_rule_for(p.language.members, p.rows[c].kind, 0);
                        let name = declared_name(p, c, inner);
                        let q = qualified(parents, name, separator);
                        lemma_recorded(p, i, t, name, q, members, at);
                        let inner_end = grammar::subtree_end(p.rows, c);
                        grammar::lemma_skip_deeper(p.rows, c + 1, p.rows[c].depth as int);
                        grammar::lemma_nested(p.rows, c, end, depth);
                        let own = recorded(p, i, inner.member_kind, name, q, members);
                        lemma_descended(
                            p,
                            c + 1,
                            inner_end,
                            parents.push(name),
                            inner.body_kind,
                            inside_function || inner.member_kind == "function"@,
                            own,
                            at.push(i),
                            p.rows[c].depth as int,
                        )
                    },
                },
                MemberRule::FunctionValue => {
                    if !inside_function && is_binding(p, i) {
                        let name = declared_name(p, i, spec);
                        let q = qualified(parents, name, separator);
                        lemma_recorded(p, i, s, name, q, members, at);
                        at.push(i)
                    } else {
                        at
                    }
                },
                MemberRule::Plain => {
                    let name = declared_name(p, i, spec);
                    let q = qualified(parents, name, separator);
                    lemma_recorded(p, i, s, name, q, members, at);
                    let own = recorded(p, i, spec.member_kind, name, q, members);
                    if spec.container {
                        lemma_descended(
                            p,
                            i + 1,
                            end,
                            parents.push(name),
                            spec.body_kind,
                            inside_function || spec.member_kind == "function"@,
                            own,
                            at.push(i),
                            depth,
                        )
                    } else {
                        at.push(i)
                    }
                },
            }
        },
    }
}

proof fn lemma_descended(
    p: Parsed,
    lo: int,
    hi: int,
    parents: Seq<Seq<char>>,
    skipped: Option<Seq<char>>,
    inside_function: bool,
    members: Seq<MemberModel>,
    at: Seq<int>,
    depth: int,
) -> (r: Seq<int>)
    requires
        0 <= lo <= hi <= p.rows.len(),
        forall|k: int| lo <= k < hi ==> (#[trigger] p.rows[k]).depth > depth,
        hi < p.rows.len() ==> p.rows[hi].depth <= depth,
        recorded_from(p, members, at),
        forall|k: int| 0 <= k < at.len() ==> #[trigger] at[k] < lo,
    ensures
        recorded_from(
            p,
            descended(p, lo, hi, parents, skipped, inside_function, members),
            r,
        ),
        forall|k: int| 0 <= k < r.len() ==> #[trigger] r[k] < hi,
    decreases p.rows.len() - lo, 1int,
{
    if lo >= hi {
        at
    } else {
        let next = grammar::subtree_end(p.rows, lo);
        grammar::lemma_nested(p.rows, lo, hi, depth);
        if p.rows[lo].named && skipped != Some(p.rows[lo].kind) {
            let own = visited(p, lo, parents, inside_function, members);
            let rows = lemma_visited(p, lo, parents, inside_function, members, at);
            lemma_descended(
                p,
                next,
                hi,
                parents,
                skipped,
                inside_function,
                own,
                rows,
                depth,
            )
        } else {
            lemma_descended(
                p,
                next,
                hi,
                parents,
                skipped,
                inside_function,
                members,
                at,
                depth,
            )
        }
    }
}

/// The members stand in document order, and each of them is bound to its own declaration: its
/// hash covers its symbol key and its own text, and nothing else of the file.
pub proof fn law_members_bound_to_text(p: Parsed)
    ensures
        exists|at: Seq<int>| recorded_from(p, collected(p).members, at),
{
    if p.rows.len() > 0 {
        let none = Seq::<MemberModel>::empty();
        let at = lemma_visited(p, 0, Seq::empty(), false, none, Seq::empty());
        assert(recorded_from(p, collected(p).members, at));
    } else {
        assert(recorded_from(p, collected(p).members, Seq::empty()));
    }
}

/// Whether the member kinds of a language can be told from the rest of a symbol key.
pub open spec fn plain_kinds(language: LanguageModel) -> bool {
    forall|s: int|
        0 <= s < language.members.len() ==> !(#[trigger] language.members[s]).member_kind.contains(
            ':',
        )
}

proof fn lemma_decimal(n: nat)
    ensures
        text::decimal(n).len() > 0,
        !text::decimal(n).contains(':'),
    decreases n,
{
    let d = text::decimal(n);
    if n >= 10 {
        lemma_decimal(n / 10);
        if d.contains(':') {
            let k = d.index_of(':');
            if k < d.len() - 1 {
                assert(text::decimal(n / 10)[k] == ':');
            }
        }
    } else if d.contains(':') {
        assert(d[0] == ':');
    }
}

proof fn lemma_decimal_injective(a: nat, b: nat)
    requires
        text::decimal(a) == text::decimal(b),
    ensures
        a == b,
    decreases a,
{
    lemma_decimal(a / 10);
    lemma_decimal(b / 10);
    let x = text::decimal(a);
    let y = text::decimal(b);
    assert(x.last() == text::digit(a % 10));
    assert(y.last() == text::digit(b % 10));
    if a >= 10 || b >= 10 {
        assert(a >= 10 && b >= 10) by {
            assert(a >= 10 ==> x.len() > 1);
            assert(b >= 10 ==> y.len() > 1);
        }
        assert(x.drop_last() =~= text::decimal(a / 10));
        assert(y.drop_last() =~= text::decimal(b / 10));
        lemma_decimal_injective(a / 10, b / 10);
    }
}

/// A symbol key can be taken apart again.
pub proof fn law_symbol_key_injective(
    kind: Seq<char>,
    name: Seq<char>,
    n: nat,
    other_kind: Seq<char>,
    other_name: Seq<char>,
    m: nat,
)
    requires
        !kind.contains(':'),
        !other_kind.contains(':'),
        symbol_key(kind, name, n) == symbol_key(other_kind, other_name, m),
    ensures
        kind == other_kind,
        name == other_name,
        n == m,
{
    reveal_strlit(":");
    assert(":"@ =~= seq![':']);
    let key = symbol_key(kind, name, n);
    let a = kind.len() as int;
    let b = other_kind.len() as int;
    assert(key[a] == ':');
    assert(symbol_key(other_kind, other_name, m)[b] == ':');
    if a < b {
        assert(other_kind[a] == key[a]);
        assert(other_kind.contains(':'));
    }
    if b < a {
        assert(kind[b] == key[b]);
        assert(kind.contains(':'));
    }
    assert(kind =~= key.take(a));
    assert(other_kind =~= key.take(a));
    lemma_decimal(n);
    lemma_decimal(m);
    let p = a + 1 + name.len();
    let q = a + 1 + other_name.len();
    assert(key[p] == ':');
    assert(key[q] == ':');
    assert(text::decimal(n) =~= key.skip(p + 1));
    assert(text::decimal(m) =~= key.skip(q + 1));
    if p < q {
        assert(text::decimal(n)[q - p - 1] == ':');
        assert(text::decimal(n).contains(':'));
    }
    if q < p {
        assert(text::decimal(m)[p - q - 1] == ':');
        assert(text::decimal(m).contains(':'));
    }
    assert(name =~= key.subrange(a + 1, p));
    assert(other_name =~= key.subrange(a + 1, q));
    lemma_decimal_injective(n, m);
}

proof fn lemma_ordinal_grows(
    members: Seq<MemberModel>,
    kind: Seq<char>,
    name: Seq<char>,
    j: int,
    k: int,
)
    requires
        0 <= j < k <= members.len(),
        members[j].symbol_kind == kind,
        members[j].qualified_name == name,
    ensures
        ordinal(members.take(j), kind, name) < ordinal(members.take(k), kind, name),
    decreases k - j,
{
    assert(members.take(k).drop_last() =~= members.take(k - 1));
    if k > j + 1 {
        lemma_ordinal_grows(members, kind, name, j, k - 1);
    }
}

/// No two members of a file share a symbol key, so a note addresses one declaration only.
pub proof fn law_symbols_unique(p: Parsed, j: int, k: int)
    requires
        plain_kinds(p.language),
        0 <= j < k < collected(p).members.len(),
    ensures
        collected(p).members[j].symbol != collected(p).members[k].symbol,
{
    let members = collected(p).members;
    law_members_bound_to_text(p);
    let at = choose|at: Seq<int>| recorded_from(p, members, at);
    assert(member_of_row(p, members, j, at[j]));
    assert(member_of_row(p, members, k, at[k]));
    reveal_strlit("constructor");
    assert(!"constructor"@.contains(':'));
    let a = members[j];
    let b = members[k];
    assert(!a.symbol_kind.contains(':'));
    assert(!b.symbol_kind.contains(':'));
    let m = ordinal(members.take(j), a.symbol_kind, a.qualified_name);
    let n = ordinal(members.take(k), b.symbol_kind, b.qualified_name);
    if a.symbol == b.symbol {
        law_symbol_key_injective(
            a.symbol_kind,
            a.qualified_name,
            m,
            b.symbol_kind,
            b.qualified_name,
            n,
        );
        lemma_ordinal_grows(members, a.symbol_kind, a.qualified_name, j, k);
    }
}

/// Reformatting a declaration outside its string literals does not touch its hash: the white space
/// there can be spelled otherwise in any number of places.
pub proof fn law_reformatting_keeps_hash(
    symbol: Seq<char>,
    pieces: Seq<Seq<char>>,
    p: Seq<Seq<char>>,
    q: Seq<Seq<char>>,
    rest: Seq<char>,
)
    requires
        hash::are_gaps(pieces, p),
        hash::are_gaps(pieces, q),
        hash::gaps_in_code(pieces, p),
    ensures
        hash::member_hash(symbol, hash::laid_out(pieces, p, pieces.len() as int) + rest)
            == hash::member_hash(symbol, hash::laid_out(pieces, q, pieces.len() as int) + rest),
{
    hash::law_reformatting_keeps_code(pieces, p, q, rest);
}

/// The symbol keys of every supported language can be taken apart.
pub proof fn law_registry_kinds_plain(i: int)
    requires
        0 <= i < languages().len(),
    ensures
        plain_kinds(languages()[i]),
{
    reveal_strlit("module");
    reveal_strlit("class");
    reveal_strlit("interface");
    reveal_strlit("enum");
    reveal_strlit("type");
    reveal_strlit("function");
    reveal_strlit("method");
    reveal_strlit("field");
    reveal_strlit("record");
    reveal_strlit("annotation");
    reveal_strlit("constructor");
    reveal_strlit("constant");
    reveal_strlit("impl");
    reveal_strlit("trait");
    reveal_strlit("struct");
    reveal_strlit("macro");
    assert(!"module"@.contains(':') && !"class"@.contains(':') && !"interface"@.contains(':')
        && !"enum"@.contains(':') && !"type"@.contains(':') && !"function"@.contains(':')
        && !"method"@.contains(':') && !"field"@.contains(':') && !"record"@.contains(':')
        && !"annotation"@.contains(':') && !"constructor"@.contains(':') && !"constant"@.contains(
        ':',
    ) && !"impl"@.contains(':') && !"trait"@.contains(':') && !"struct"@.contains(':')
        && !"macro"@.contains(':'));
}

} // verus!
