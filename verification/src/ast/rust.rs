//! Rust adapter: `fn`, `struct`, `enum`, `trait`, `impl`, `mod`, `const`/`static`, `type` aliases
//! and `macro_rules!`. Items inside a function body are locals and are never members.
use super::{grammar::Grammar, Language, LanguageModel, MemberSpec, SpecModel};
use vstd::prelude::*;

verus! {

/// Node kinds that become annotatable members, in match order.
pub open spec fn rust_members_model() -> Seq<SpecModel> {
    seq![
        super::plain_model("mod_item"@, "module"@, "name"@, true, None),
        super::plain_model("impl_item"@, "impl"@, "type"@, true, None),
        super::plain_model("trait_item"@, "trait"@, "name"@, true, None),
        super::plain_model("struct_item"@, "struct"@, "name"@, false, Some("field_declaration_list"@)),
        super::plain_model("enum_item"@, "enum"@, "name"@, false, Some("enum_variant_list"@)),
        super::plain_model("function_item"@, "function"@, "name"@, false, Some("block"@)),
        super::plain_model("const_item"@, "constant"@, "name"@, false, None),
        super::plain_model("static_item"@, "constant"@, "name"@, false, None),
        super::plain_model("type_item"@, "type"@, "name"@, false, None),
        super::plain_model("macro_definition"@, "macro"@, "name"@, false, None),
    ]
}

/// Node kinds that become annotatable members, in match order.
pub fn rust_members() -> (r: Vec<MemberSpec>)
    ensures
        r.deep_view() == rust_members_model(),
{
    let r = vec![
        super::plain("mod_item", "module", "name", true, None),
        super::plain("impl_item", "impl", "type", true, None),
        super::plain("trait_item", "trait", "name", true, None),
        super::plain("struct_item", "struct", "name", false, Some("field_declaration_list")),
        super::plain("enum_item", "enum", "name", false, Some("enum_variant_list")),
        super::plain("function_item", "function", "name", false, Some("block")),
        super::plain("const_item", "constant", "name", false, None),
        super::plain("static_item", "constant", "name", false, None),
        super::plain("type_item", "type", "name", false, None),
        super::plain("macro_definition", "macro", "name", false, None),
    ];
    assert(r.deep_view() =~= rust_members_model());
    r
}

/// The Rust language entry.
pub open spec fn rust_model() -> LanguageModel {
    LanguageModel {
        id: "rust"@,
        extensions: seq!["rs"@],
        grammar: Grammar::Rust,
        separator: "::"@,
        members: rust_members_model(),
    }
}

/// The Rust language entry.
pub fn rust() -> (r: Language)
    ensures
        r.deep_view() == rust_model(),
{
    let r = Language {
        id: "rust",
        extensions: vec!["rs"],
        grammar: Grammar::Rust,
        separator: "::",
        members: rust_members(),
    };
    assert(r.extensions.deep_view() =~= rust_model().extensions);
    r
}

} // verus!
