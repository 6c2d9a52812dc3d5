//! Python adapter: `def`, `async def`, `class`, decorated definitions and module/class-level
//! constants.
//!
//! A `decorated_definition` is recorded as the member (its span and hash include the decorators, so
//! adding one re-stales the member) but takes its kind, name and children from the decorated
//! definition. Nested `def`s are members qualified by their enclosing function (`outer.inner`);
//! ordinary locals such as `x = 1` are not members.
use super::{grammar::Grammar, Language, LanguageModel, MemberRule, MemberSpec, SpecModel};
use vstd::prelude::*;

verus! {

/// Node kinds that become annotatable members, in match order.
pub open spec fn python_members_model() -> Seq<SpecModel> {
    seq![
        super::plain_model("class_definition"@, "class"@, "name"@, true, None),
        super::plain_model("function_definition"@, "function"@, "name"@, true, None),
        super::ruled_model("decorated_definition"@, "function"@, None, MemberRule::Decorated),
        super::ruled_model("assignment"@, "constant"@, Some("left"@), MemberRule::FunctionValue),
    ]
}

/// Node kinds that become annotatable members, in match order.
pub fn python_members() -> (r: Vec<MemberSpec>)
    ensures
        r.deep_view() == python_members_model(),
{
    let r = vec![
        super::plain("class_definition", "class", "name", true, None),
        super::plain("function_definition", "function", "name", true, None),
        super::ruled("decorated_definition", "function", None, MemberRule::Decorated),
        super::ruled("assignment", "constant", Some("left"), MemberRule::FunctionValue),
    ];
    assert(r.deep_view() =~= python_members_model());
    r
}

/// The Python language entry.
pub open spec fn python_model() -> LanguageModel {
    LanguageModel {
        id: "python"@,
        extensions: seq!["py"@, "pyi"@],
        grammar: Grammar::Python,
        separator: "."@,
        members: python_members_model(),
    }
}

/// The Python language entry.
pub fn python() -> (r: Language)
    ensures
        r.deep_view() == python_model(),
{
    let r = Language {
        id: "python",
        extensions: vec!["py", "pyi"],
        grammar: Grammar::Python,
        separator: ".",
        members: python_members(),
    };
    assert(r.extensions.deep_view() =~= python_model().extensions);
    r
}

} // verus!
