//! TypeScript and TSX adapter: classes, interfaces, enums, type aliases, namespaces, functions and
//! class members. `export` wrappers are transparent; a `variable_declarator` is a member only when
//! its initializer is a function or arrow function.
use super::{grammar::Grammar, Language, LanguageModel, MemberRule, MemberSpec, SpecModel};
use vstd::prelude::*;

verus! {

/// Node kinds that become annotatable members, in match order.
pub open spec fn typescript_members_model() -> Seq<SpecModel> {
    seq![
        super::ruled_model("export_statement"@, "module"@, None, MemberRule::Transparent),
        super::plain_model("class_declaration"@, "class"@, "name"@, true, None),
        super::plain_model("abstract_class_declaration"@, "class"@, "name"@, true, None),
        super::plain_model("interface_declaration"@, "interface"@, "name"@, true, Some("object_type"@)),
        super::plain_model("internal_module"@, "module"@, "name"@, true, None),
        super::plain_model("enum_declaration"@, "enum"@, "name"@, true, Some("enum_body"@)),
        super::plain_model("type_alias_declaration"@, "type"@, "name"@, false, None),
        super::plain_model("function_declaration"@, "function"@, "name"@, false, Some("statement_block"@)),
        super::plain_model("method_definition"@, "method"@, "name"@, false, Some("statement_block"@)),
        super::plain_model("abstract_method_signature"@, "method"@, "name"@, false, None),
        super::plain_model("public_field_definition"@, "field"@, "name"@, false, None),
        super::ruled_model("variable_declarator"@, "function"@, Some("name"@), MemberRule::FunctionValue),
    ]
}

/// Node kinds that become annotatable members, in match order.
pub fn typescript_members() -> (r: Vec<MemberSpec>)
    ensures
        r.deep_view() == typescript_members_model(),
{
    let r = vec![
        super::ruled("export_statement", "module", None, MemberRule::Transparent),
        super::plain("class_declaration", "class", "name", true, None),
        super::plain("abstract_class_declaration", "class", "name", true, None),
        super::plain("interface_declaration", "interface", "name", true, Some("object_type")),
        super::plain("internal_module", "module", "name", true, None),
        super::plain("enum_declaration", "enum", "name", true, Some("enum_body")),
        super::plain("type_alias_declaration", "type", "name", false, None),
        super::plain("function_declaration", "function", "name", false, Some("statement_block")),
        super::plain("method_definition", "method", "name", false, Some("statement_block")),
        super::plain("abstract_method_signature", "method", "name", false, None),
        super::plain("public_field_definition", "field", "name", false, None),
        super::ruled("variable_declarator", "function", Some("name"), MemberRule::FunctionValue),
    ];
    assert(r.deep_view() =~= typescript_members_model());
    r
}

/// The TypeScript language entry (`.ts`, `.mts`, `.cts`).
pub open spec fn typescript_model() -> LanguageModel {
    LanguageModel {
        id: "typescript"@,
        extensions: seq!["ts"@, "mts"@, "cts"@],
        grammar: Grammar::TypeScript,
        separator: "."@,
        members: typescript_members_model(),
    }
}

/// The TypeScript language entry (`.ts`, `.mts`, `.cts`).
pub fn typescript() -> (r: Language)
    ensures
        r.deep_view() == typescript_model(),
{
    let r = Language {
        id: "typescript",
        extensions: vec!["ts", "mts", "cts"],
        grammar: Grammar::TypeScript,
        separator: ".",
        members: typescript_members(),
    };
    assert(r.extensions.deep_view() =~= typescript_model().extensions);
    r
}

/// The TSX language entry, sharing the TypeScript node table.
pub open spec fn tsx_model() -> LanguageModel {
    LanguageModel {
        id: "tsx"@,
        extensions: seq!["tsx"@],
        grammar: Grammar::Tsx,
        separator: "."@,
        members: typescript_members_model(),
    }
}

/// The TSX language entry, sharing the TypeScript node table.
pub fn tsx() -> (r: Language)
    ensures
        r.deep_view() == tsx_model(),
{
    let r = Language {
        id: "tsx",
        extensions: vec!["tsx"],
        grammar: Grammar::Tsx,
        separator: ".",
        members: typescript_members(),
    };
    assert(r.extensions.deep_view() =~= tsx_model().extensions);
    r
}

} // verus!
