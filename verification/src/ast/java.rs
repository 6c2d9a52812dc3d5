//! Java adapter: classes, interfaces, enums, records, annotations, methods, constructors, fields
//! and enum constants. Anonymous classes are skipped: they have no stable name.
use super::{grammar::Grammar, Language, LanguageModel, MemberSpec, SpecModel};
use vstd::prelude::*;

verus! {

/// Node kinds that become annotatable members, in match order.
pub open spec fn java_members_model() -> Seq<SpecModel> {
    seq![
        super::plain_model("class_declaration"@, "class"@, "name"@, true, None),
        super::plain_model("interface_declaration"@, "interface"@, "name"@, true, None),
        super::plain_model("enum_declaration"@, "enum"@, "name"@, true, None),
        super::plain_model("record_declaration"@, "record"@, "name"@, true, None),
        super::plain_model("annotation_type_declaration"@, "annotation"@, "name"@, true, None),
        super::plain_model("method_declaration"@, "method"@, "name"@, false, Some("block"@)),
        super::plain_model("constructor_declaration"@, "constructor"@, "name"@, false, Some("block"@)),
        super::plain_model("field_declaration"@, "field"@, "declarator.name"@, false, None),
        super::plain_model("enum_constant"@, "constant"@, "name"@, false, None),
    ]
}

/// Node kinds that become annotatable members, in match order.
pub fn java_members() -> (r: Vec<MemberSpec>)
    ensures
        r.deep_view() == java_members_model(),
{
    let r = vec![
        super::plain("class_declaration", "class", "name", true, None),
        super::plain("interface_declaration", "interface", "name", true, None),
        super::plain("enum_declaration", "enum", "name", true, None),
        super::plain("record_declaration", "record", "name", true, None),
        super::plain("annotation_type_declaration", "annotation", "name", true, None),
        super::plain("method_declaration", "method", "name", false, Some("block")),
        super::plain("constructor_declaration", "constructor", "name", false, Some("block")),
        super::plain("field_declaration", "field", "declarator.name", false, None),
        super::plain("enum_constant", "constant", "name", false, None),
    ];
    assert(r.deep_view() =~= java_members_model());
    r
}

/// The Java language entry.
pub open spec fn java_model() -> LanguageModel {
    LanguageModel {
        id: "java"@,
        extensions: seq!["java"@],
        grammar: Grammar::Java,
        separator: "."@,
        members: java_members_model(),
    }
}

/// The Java language entry.
pub fn java() -> (r: Language)
    ensures
        r.deep_view() == java_model(),
{
    let r = Language {
        id: "java",
        extensions: vec!["java"],
        grammar: Grammar::Java,
        separator: ".",
        members: java_members(),
    };
    assert(r.extensions.deep_view() =~= java_model().extensions);
    r
}

} // verus!
