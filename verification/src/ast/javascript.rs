//! JavaScript adapter (also used for JSX files): classes, class members, functions and
//! function-valued `const`s. `export` wrappers are transparent.
use super::{grammar::Grammar, Language, LanguageModel, MemberRule, MemberSpec, SpecModel};
use vstd::prelude::*;

verus! {

/// Node kinds that become annotatable members, in match order.
pub open spec fn javascript_members_model() -> Seq<SpecModel> {
    seq![
        super::ruled_model("export_statement"@, "module"@, None, MemberRule::Transparent),
        super::plain_model("class_declaration"@, "class"@, "name"@, true, None),
        super::plain_model("function_declaration"@, "function"@, "name"@, false, Some("statement_block"@)),
        super::plain_model("function_expression"@, "function"@, "name"@, false, Some("statement_block"@)),
        super::plain_model("method_definition"@, "method"@, "name"@, false, Some("statement_block"@)),
        super::plain_model("field_definition"@, "field"@, "property"@, false, None),
        super::ruled_model("variable_declarator"@, "function"@, Some("name"@), MemberRule::FunctionValue),
    ]
}

/// Node kinds that become annotatable members, in match order.
pub fn javascript_members() -> (r: Vec<MemberSpec>)
    ensures
        r.deep_view() == javascript_members_model(),
{
    let r = vec![
        super::ruled("export_statement", "module", None, MemberRule::Transparent),
        super::plain("class_declaration", "class", "name", true, None),
        super::plain("function_declaration", "function", "name", false, Some("statement_block")),
        super::plain("function_expression", "function", "name", false, Some("statement_block")),
        super::plain("method_definition", "method", "name", false, Some("statement_block")),
        super::plain("field_definition", "field", "property", false, None),
        super::ruled("variable_declarator", "function", Some("name"), MemberRule::FunctionValue),
    ];
    assert(r.deep_view() =~= javascript_members_model());
    r
}

/// The JavaScript language entry.
pub open spec fn javascript_model() -> LanguageModel {
    LanguageModel {
        id: "javascript"@,
        extensions: seq!["js"@, "mjs"@, "cjs"@, "jsx"@],
        grammar: Grammar::JavaScript,
        separator: "."@,
        members: javascript_members_model(),
    }
}

/// The JavaScript language entry.
pub fn javascript() -> (r: Language)
    ensures
        r.deep_view() == javascript_model(),
{
    let r = Language {
        id: "javascript",
        extensions: vec!["js", "mjs", "cjs", "jsx"],
        grammar: Grammar::JavaScript,
        separator: ".",
        members: javascript_members(),
    };
    assert(r.extensions.deep_view() =~= javascript_model().extensions);
    r
}

} // verus!
