//! Which node kinds of each language are listed, and which files are source at all.
use super::members;
use crate::ast;
use crate::ast::grammar;
use crate::ast::grammar::Grammar;
use crate::ast::{java, javascript, python, rust, typescript};
use crate::ast::{LanguageModel, MemberRule, Parsed, SpecModel};
use crate::repo;
use crate::text;
use vstd::prelude::*;

verus! {

/// Whether the `k`-th member of a file is the declaration at a row, of this kind and with this name.
pub open spec fn is_listed(p: Parsed, i: int, kind: Seq<char>, name: Seq<char>) -> bool {
    exists|k: int|
        0 <= k < ast::collected(p).members.len() && members::is_called(
            #[trigger] ast::collected(p).members[k],
            kind,
            name,
        ) && (p.rows[i].start_row < usize::MAX ==> ast::collected(p).members[k].start_line
            == p.rows[i].start_row + 1) && (p.rows[i].end_row < usize::MAX ==> ast::collected(
            p,
        ).members[k].end_line == p.rows[i].end_row + 1)
}

/// Whether a row has a name in a field, with nothing around it.
pub open spec fn is_name_in(p: Parsed, i: int, field: Seq<char>, c: int, name: Seq<char>) -> bool {
    &&& members::has_in_field(p.rows, i, field, c)
    &&& ast::node_text(p, c) == Some(name)
    &&& name.len() > 0
    &&& !text::is_white_space(name[0]) && !text::is_white_space(name.last())
}

proof fn lemma_listed(p: Parsed, i: int, s: int, c: int, name: Seq<char>)
    requires
        is_looked_at(p, i, s),
        p.language.members[s].name_field is Some,
        !p.language.members[s].name_field->0.contains('.'),
        is_name_in(p, i, p.language.members[s].name_field->0, c, name),
    ensures
        is_listed(p, i, p.language.members[s].member_kind, name),
{
    let spec = p.language.members[s];
    let none = Seq::<char>::empty();
    assert(none + name + none =~= name);
    members::law_declared_name(p, i, spec, spec.name_field->0, c, none, name, none);
    lemma_listed_as(p, i, s);
}

/// Whether a row declares something by a rule and nothing around it keeps it from being listed.
spec fn is_looked_at(p: Parsed, i: int, s: int) -> bool {
    let spec = p.language.members[s];
    &&& members::fields_are_children(p.rows)
    &&& members::above(p.rows, 0, i)
    &&& p.rows[i].named
    &&& members::is_rule(p.language.members, p.rows[i].kind, s)
    &&& forall|a: int| #[trigger] members::above(p.rows, a, i) ==> members::is_open(p, a, i)
    &&& {
        ||| spec.rule == MemberRule::Plain
        ||| spec.rule == MemberRule::FunctionValue && members::binds(p, i) && forall|a: int|
            #[trigger] members::above(p.rows, a, i) ==> !members::is_function(p, a)
    }
}

proof fn lemma_listed_as(p: Parsed, i: int, s: int)
    requires
        is_looked_at(p, i, s),
    ensures
        is_listed(
            p,
            i,
            p.language.members[s].member_kind,
            ast::declared_name(p, i, p.language.members[s]),
        ),
{
    let spec = p.language.members[s];
    assert(members::declares(p, i));
    assert(members::is_reached(p, 0, i, false, None)) by {
        if members::has_rule(p, i, MemberRule::FunctionValue) {
            let t = choose|t: int| #[trigger]
                members::is_rule(p.language.members, p.rows[i].kind, t)
                    && p.language.members[t].rule == MemberRule::FunctionValue;
            members::lemma_rule_is(p.language.members, p.rows[i].kind, s);
            members::lemma_rule_is(p.language.members, p.rows[i].kind, t);
        }
    }
    members::law_members_are_the_declarations(p);
    let at = choose|at: Seq<int>| #[trigger] members::lists(p, ast::collected(p).members, at);
    members::lemma_above(p.rows, 0, i);
    let k = at.index_of(i);
    assert(members::is_told(p, ast::collected(p).members, at, k));
    let t = choose|t: int| #[trigger]
        members::is_rule(p.language.members, p.rows[i].kind, t) && members::is_declared_by(
            p,
            i,
            p.language.members[t],
            ast::collected(p).members[k],
        );
    members::lemma_rule_is(p.language.members, p.rows[i].kind, s);
    members::lemma_rule_is(p.language.members, p.rows[i].kind, t);
}

// ---------------------------------------------------------------------------------------------
// Java
// ---------------------------------------------------------------------------------------------

/// What a node of Java is listed as, and the field that holds its name.
pub open spec fn java_kind(node: Seq<char>) -> Option<(Seq<char>, Seq<char>)> {
    if node == "class_declaration"@ {
        Some(("class"@, "name"@))
    } else if node == "interface_declaration"@ {
        Some(("interface"@, "name"@))
    } else if node == "enum_declaration"@ {
        Some(("enum"@, "name"@))
    } else if node == "record_declaration"@ {
        Some(("record"@, "name"@))
    } else if node == "annotation_type_declaration"@ {
        Some(("annotation"@, "name"@))
    } else if node == "method_declaration"@ {
        Some(("method"@, "name"@))
    } else if node == "constructor_declaration"@ {
        Some(("constructor"@, "name"@))
    } else if node == "enum_constant"@ {
        Some(("constant"@, "name"@))
    } else {
        None
    }
}

/// The nodes of Java that nothing is listed below.
pub open spec fn java_closed(node: Seq<char>) -> bool {
    ||| node == "method_declaration"@
    ||| node == "constructor_declaration"@
    ||| node == "field_declaration"@
    ||| node == "enum_constant"@
}

/// A Java file lists its types, methods, constructors and enum constants wherever they lie, but in a method, a constructor, a field or an enum constant: each under its kind, with the name
/// that stands in the declaration.
pub proof fn law_java_declarations(p: Parsed, i: int, c: int, name: Seq<char>)
    requires
        p.language == java::java_model(),
        members::fields_are_children(p.rows),
        members::above(p.rows, 0, i),
        p.rows[i].named,
        java_kind(p.rows[i].kind) is Some,
        forall|a: int| #[trigger]
            members::above(p.rows, a, i) ==> (a > 0 ==> p.rows[a].named) && !java_closed(p.rows[a].kind),
        is_name_in(p, i, (java_kind(p.rows[i].kind)->0).1, c, name),
    ensures
        is_listed(p, i, (java_kind(p.rows[i].kind)->0).0, name),
{
    let specs = p.language.members;
    let kind = p.rows[i].kind;
    reveal_with_fuel(ast::rule_for, 12);
    lemma_java_literals();
    members::lemma_rule(specs, kind, 0);
    let s = choose|s: int| #[trigger] members::is_rule(specs, kind, s);
    members::lemma_rule_is(specs, kind, s);
    assert forall|a: int| #[trigger] members::above(p.rows, a, i) implies members::is_open(p, a, i) by {
        assert forall|t: int| #[trigger] members::is_rule(specs, p.rows[a].kind, t) implies specs[t].rule
            != MemberRule::FunctionValue && specs[t].rule != MemberRule::Decorated && (specs[t].rule
            == MemberRule::Plain ==> specs[t].container) by {
            members::lemma_rule_is(specs, p.rows[a].kind, t);
        }
        assert forall|t: int| #[trigger] members::is_rule(specs, p.rows[a].kind, t) implies specs[t].body_kind
            is None by {
            members::lemma_rule_is(specs, p.rows[a].kind, t);
        }
    }
    lemma_listed(p, i, s, c, name);
}

proof fn lemma_java_literals()
    ensures
        !"name"@.contains('.') && !"type"@.contains('.') && !"property"@.contains('.'),
        !java_closed("export_statement"@),
        java_kind("export_statement"@) is None,
        java_kind("variable_declarator"@) is None,
        java_kind("field_declaration"@) is None,
{
    reveal_strlit("name");
    reveal_strlit("type");
    reveal_strlit("property");
    reveal_strlit("annotation_type_declaration");
    reveal_strlit("class_declaration");
    reveal_strlit("constructor_declaration");
    reveal_strlit("enum_constant");
    reveal_strlit("enum_declaration");
    reveal_strlit("export_statement");
    reveal_strlit("field_declaration");
    reveal_strlit("interface_declaration");
    reveal_strlit("method_declaration");
    reveal_strlit("record_declaration");
    reveal_strlit("variable_declarator");
    assert("export_statement"@.len() == 16 && "annotation_type_declaration"@.len() == 27);
    assert("export_statement"@.len() == 16 && "class_declaration"@.len() == 17);
    assert("export_statement"@.len() == 16 && "constructor_declaration"@.len() == 23);
    assert("export_statement"@.len() == 16 && "enum_constant"@.len() == 13);
    assert("export_statement"@[1] == 'x' && "enum_declaration"@[1] == 'n');
    assert("export_statement"@.len() == 16 && "field_declaration"@.len() == 17);
    assert("export_statement"@.len() == 16 && "interface_declaration"@.len() == 21);
    assert("export_statement"@.len() == 16 && "method_declaration"@.len() == 18);
    assert("export_statement"@.len() == 16 && "record_declaration"@.len() == 18);
    assert("variable_declarator"@.len() == 19 && "annotation_type_declaration"@.len() == 27);
    assert("variable_declarator"@.len() == 19 && "class_declaration"@.len() == 17);
    assert("variable_declarator"@.len() == 19 && "constructor_declaration"@.len() == 23);
    assert("variable_declarator"@.len() == 19 && "enum_constant"@.len() == 13);
    assert("variable_declarator"@.len() == 19 && "enum_declaration"@.len() == 16);
    assert("variable_declarator"@.len() == 19 && "field_declaration"@.len() == 17);
    assert("variable_declarator"@.len() == 19 && "interface_declaration"@.len() == 21);
    assert("variable_declarator"@.len() == 19 && "method_declaration"@.len() == 18);
    assert("variable_declarator"@.len() == 19 && "record_declaration"@.len() == 18);
    assert("field_declaration"@.len() == 17 && "annotation_type_declaration"@.len() == 27);
    assert("field_declaration"@[0] == 'f' && "class_declaration"@[0] == 'c');
    assert("field_declaration"@.len() == 17 && "constructor_declaration"@.len() == 23);
    assert("field_declaration"@.len() == 17 && "enum_constant"@.len() == 13);
    assert("field_declaration"@.len() == 17 && "enum_declaration"@.len() == 16);
    assert("field_declaration"@.len() == 17 && "interface_declaration"@.len() == 21);
    assert("field_declaration"@.len() == 17 && "method_declaration"@.len() == 18);
    assert("field_declaration"@.len() == 17 && "record_declaration"@.len() == 18);
}

/// A field of a Java type is listed under the name of its declarator.
pub proof fn law_java_fields(p: Parsed, i: int, d: int, c: int, name: Seq<char>)
    requires
        p.language == java::java_model(),
        members::fields_are_children(p.rows),
        members::above(p.rows, 0, i),
        p.rows[i].named,
        p.rows[i].kind == "field_declaration"@,
        forall|a: int| #[trigger]
            members::above(p.rows, a, i) ==> (a > 0 ==> p.rows[a].named) && !java_closed(
                p.rows[a].kind,
            ),
        members::has_in_field(p.rows, i, "declarator"@, d),
        is_name_in(p, d, "name"@, c, name),
    ensures
        is_listed(p, i, "field"@, name),
{
    let specs = p.language.members;
    let kind = p.rows[i].kind;
    reveal_with_fuel(ast::rule_for, 12);
    lemma_java_literals();
    reveal_strlit("declarator");
    reveal_strlit("declarator.name");
    reveal_strlit("name");
    assert("declarator.name"@ =~= "declarator"@ + seq!['.'] + "name"@);
    assert(!"declarator"@.contains('.'));
    members::lemma_rule(specs, kind, 0);
    let s = choose|s: int| #[trigger] members::is_rule(specs, kind, s);
    members::lemma_rule_is(specs, kind, s);
    assert forall|a: int| #[trigger] members::above(p.rows, a, i) implies members::is_open(
        p,
        a,
        i,
    ) by {
        assert forall|t: int| #[trigger] members::is_rule(
            specs,
            p.rows[a].kind,
            t,
        ) implies specs[t].rule == MemberRule::Plain && specs[t].container && specs[t].body_kind
            is None by {
            members::lemma_rule_is(specs, p.rows[a].kind, t);
        }
    }
    members::law_declared_name_further_down(
        p,
        i,
        specs[s],
        "declarator"@,
        "name"@,
        d,
        c,
        name,
    );
    lemma_listed_as(p, i, s);
}

// ---------------------------------------------------------------------------------------------
// Rust
// ---------------------------------------------------------------------------------------------

/// What a node of Rust is listed as, and the field that holds its name.
pub open spec fn rust_kind(node: Seq<char>) -> Option<(Seq<char>, Seq<char>)> {
    if node == "mod_item"@ {
        Some(("module"@, "name"@))
    } else if node == "impl_item"@ {
        Some(("impl"@, "type"@))
    } else if node == "trait_item"@ {
        Some(("trait"@, "name"@))
    } else if node == "struct_item"@ {
        Some(("struct"@, "name"@))
    } else if node == "enum_item"@ {
        Some(("enum"@, "name"@))
    } else if node == "function_item"@ {
        Some(("function"@, "name"@))
    } else if node == "const_item"@ {
        Some(("constant"@, "name"@))
    } else if node == "static_item"@ {
        Some(("constant"@, "name"@))
    } else if node == "type_item"@ {
        Some(("type"@, "name"@))
    } else if node == "macro_definition"@ {
        Some(("macro"@, "name"@))
    } else {
        None
    }
}

/// The nodes of Rust that nothing is listed below.
pub open spec fn rust_closed(node: Seq<char>) -> bool {
    ||| node == "struct_item"@
    ||| node == "enum_item"@
    ||| node == "function_item"@
    ||| node == "const_item"@
    ||| node == "static_item"@
    ||| node == "type_item"@
    ||| node == "macro_definition"@
}

/// A Rust file lists its modules, implementations, traits, structs, enums, functions, constants, statics, type aliases and macros wherever they lie, but in anything but a module, an implementation or a trait: each under its kind, with the name
/// that stands in the declaration.
pub proof fn law_rust_declarations(p: Parsed, i: int, c: int, name: Seq<char>)
    requires
        p.language == rust::rust_model(),
        members::fields_are_children(p.rows),
        members::above(p.rows, 0, i),
        p.rows[i].named,
        rust_kind(p.rows[i].kind) is Some,
        forall|a: int| #[trigger]
            members::above(p.rows, a, i) ==> (a > 0 ==> p.rows[a].named) && !rust_closed(p.rows[a].kind),
        is_name_in(p, i, (rust_kind(p.rows[i].kind)->0).1, c, name),
    ensures
        is_listed(p, i, (rust_kind(p.rows[i].kind)->0).0, name),
{
    let specs = p.language.members;
    let kind = p.rows[i].kind;
    reveal_with_fuel(ast::rule_for, 14);
    lemma_rust_literals();
    members::lemma_rule(specs, kind, 0);
    let s = choose|s: int| #[trigger] members::is_rule(specs, kind, s);
    members::lemma_rule_is(specs, kind, s);
    assert forall|a: int| #[trigger] members::above(p.rows, a, i) implies members::is_open(p, a, i) by {
        assert forall|t: int| #[trigger] members::is_rule(specs, p.rows[a].kind, t) implies specs[t].rule
            != MemberRule::FunctionValue && specs[t].rule != MemberRule::Decorated && (specs[t].rule
            == MemberRule::Plain ==> specs[t].container) by {
            members::lemma_rule_is(specs, p.rows[a].kind, t);
        }
        assert forall|t: int| #[trigger] members::is_rule(specs, p.rows[a].kind, t) implies specs[t].body_kind
            is None by {
            members::lemma_rule_is(specs, p.rows[a].kind, t);
        }
    }
    lemma_listed(p, i, s, c, name);
}

proof fn lemma_rust_literals()
    ensures
        !"name"@.contains('.') && !"type"@.contains('.') && !"property"@.contains('.'),
        !rust_closed("export_statement"@),
        rust_kind("export_statement"@) is None,
        rust_kind("variable_declarator"@) is None,
        rust_kind("field_declaration"@) is None,
{
    reveal_strlit("name");
    reveal_strlit("type");
    reveal_strlit("property");
    reveal_strlit("const_item");
    reveal_strlit("enum_item");
    reveal_strlit("export_statement");
    reveal_strlit("field_declaration");
    reveal_strlit("function_item");
    reveal_strlit("impl_item");
    reveal_strlit("macro_definition");
    reveal_strlit("mod_item");
    reveal_strlit("static_item");
    reveal_strlit("struct_item");
    reveal_strlit("trait_item");
    reveal_strlit("type_item");
    reveal_strlit("variable_declarator");
    assert("export_statement"@.len() == 16 && "const_item"@.len() == 10);
    assert("export_statement"@.len() == 16 && "enum_item"@.len() == 9);
    assert("export_statement"@.len() == 16 && "function_item"@.len() == 13);
    assert("export_statement"@.len() == 16 && "impl_item"@.len() == 9);
    assert("export_statement"@[0] == 'e' && "macro_definition"@[0] == 'm');
    assert("export_statement"@.len() == 16 && "mod_item"@.len() == 8);
    assert("export_statement"@.len() == 16 && "static_item"@.len() == 11);
    assert("export_statement"@.len() == 16 && "struct_item"@.len() == 11);
    assert("export_statement"@.len() == 16 && "trait_item"@.len() == 10);
    assert("export_statement"@.len() == 16 && "type_item"@.len() == 9);
    assert("variable_declarator"@.len() == 19 && "const_item"@.len() == 10);
    assert("variable_declarator"@.len() == 19 && "enum_item"@.len() == 9);
    assert("variable_declarator"@.len() == 19 && "function_item"@.len() == 13);
    assert("variable_declarator"@.len() == 19 && "impl_item"@.len() == 9);
    assert("variable_declarator"@.len() == 19 && "macro_definition"@.len() == 16);
    assert("variable_declarator"@.len() == 19 && "mod_item"@.len() == 8);
    assert("variable_declarator"@.len() == 19 && "static_item"@.len() == 11);
    assert("variable_declarator"@.len() == 19 && "struct_item"@.len() == 11);
    assert("variable_declarator"@.len() == 19 && "trait_item"@.len() == 10);
    assert("variable_declarator"@.len() == 19 && "type_item"@.len() == 9);
    assert("field_declaration"@.len() == 17 && "const_item"@.len() == 10);
    assert("field_declaration"@.len() == 17 && "enum_item"@.len() == 9);
    assert("field_declaration"@.len() == 17 && "function_item"@.len() == 13);
    assert("field_declaration"@.len() == 17 && "impl_item"@.len() == 9);
    assert("field_declaration"@.len() == 17 && "macro_definition"@.len() == 16);
    assert("field_declaration"@.len() == 17 && "mod_item"@.len() == 8);
    assert("field_declaration"@.len() == 17 && "static_item"@.len() == 11);
    assert("field_declaration"@.len() == 17 && "struct_item"@.len() == 11);
    assert("field_declaration"@.len() == 17 && "trait_item"@.len() == 10);
    assert("field_declaration"@.len() == 17 && "type_item"@.len() == 9);
}

// ---------------------------------------------------------------------------------------------
// JavaScript
// ---------------------------------------------------------------------------------------------

/// What a node of JavaScript is listed as, and the field that holds its name.
pub open spec fn javascript_kind(node: Seq<char>) -> Option<(Seq<char>, Seq<char>)> {
    if node == "class_declaration"@ {
        Some(("class"@, "name"@))
    } else if node == "function_declaration"@ {
        Some(("function"@, "name"@))
    } else if node == "function_expression"@ {
        Some(("function"@, "name"@))
    } else if node == "method_definition"@ {
        Some(("method"@, "name"@))
    } else if node == "field_definition"@ {
        Some(("field"@, "property"@))
    } else {
        None
    }
}

/// The nodes of JavaScript that nothing is listed below.
pub open spec fn javascript_closed(node: Seq<char>) -> bool {
    ||| node == "function_declaration"@
    ||| node == "function_expression"@
    ||| node == "method_definition"@
    ||| node == "field_definition"@
    ||| node == "variable_declarator"@
}

/// A JavaScript file lists its classes, functions, methods and fields wherever they lie, but in a function, a method, a field or a declarator: each under its kind, with the name
/// that stands in the declaration.
pub proof fn law_javascript_declarations(p: Parsed, i: int, c: int, name: Seq<char>)
    requires
        p.language == javascript::javascript_model(),
        members::fields_are_children(p.rows),
        members::above(p.rows, 0, i),
        p.rows[i].named,
        javascript_kind(p.rows[i].kind) is Some,
        forall|a: int| #[trigger]
            members::above(p.rows, a, i) ==> (a > 0 ==> p.rows[a].named) && !javascript_closed(p.rows[a].kind),
        is_name_in(p, i, (javascript_kind(p.rows[i].kind)->0).1, c, name),
    ensures
        is_listed(p, i, (javascript_kind(p.rows[i].kind)->0).0, name),
{
    let specs = p.language.members;
    let kind = p.rows[i].kind;
    reveal_with_fuel(ast::rule_for, 9);
    lemma_javascript_literals();
    members::lemma_rule(specs, kind, 0);
    let s = choose|s: int| #[trigger] members::is_rule(specs, kind, s);
    members::lemma_rule_is(specs, kind, s);
    assert forall|a: int| #[trigger] members::above(p.rows, a, i) implies members::is_open(p, a, i) by {
        assert forall|t: int| #[trigger] members::is_rule(specs, p.rows[a].kind, t) implies specs[t].rule
            != MemberRule::FunctionValue && specs[t].rule != MemberRule::Decorated && (specs[t].rule
            == MemberRule::Plain ==> specs[t].container) by {
            members::lemma_rule_is(specs, p.rows[a].kind, t);
        }
        assert forall|t: int| #[trigger] members::is_rule(specs, p.rows[a].kind, t) implies specs[t].body_kind
            is None by {
            members::lemma_rule_is(specs, p.rows[a].kind, t);
        }
    }
    lemma_listed(p, i, s, c, name);
}

proof fn lemma_javascript_literals()
    ensures
        !"name"@.contains('.') && !"type"@.contains('.') && !"property"@.contains('.'),
        !javascript_closed("export_statement"@),
        javascript_kind("export_statement"@) is None,
        javascript_kind("variable_declarator"@) is None,
        javascript_kind("field_declaration"@) is None,
{
    reveal_strlit("name");
    reveal_strlit("type");
    reveal_strlit("property");
    reveal_strlit("class_declaration");
    reveal_strlit("export_statement");
    reveal_strlit("field_declaration");
    reveal_strlit("field_definition");
    reveal_strlit("function_declaration");
    reveal_strlit("function_expression");
    reveal_strlit("method_definition");
    reveal_strlit("variable_declarator");
    assert("export_statement"@.len() == 16 && "class_declaration"@.len() == 17);
    assert("export_statement"@[0] == 'e' && "field_definition"@[0] == 'f');
    assert("export_statement"@.len() == 16 && "function_declaration"@.len() == 20);
    assert("export_statement"@.len() == 16 && "function_expression"@.len() == 19);
    assert("export_statement"@.len() == 16 && "method_definition"@.len() == 17);
    assert("export_statement"@.len() == 16 && "variable_declarator"@.len() == 19);
    assert("variable_declarator"@.len() == 19 && "class_declaration"@.len() == 17);
    assert("variable_declarator"@.len() == 19 && "field_definition"@.len() == 16);
    assert("variable_declarator"@.len() == 19 && "function_declaration"@.len() == 20);
    assert("variable_declarator"@[0] == 'v' && "function_expression"@[0] == 'f');
    assert("variable_declarator"@.len() == 19 && "method_definition"@.len() == 17);
    assert("field_declaration"@[0] == 'f' && "class_declaration"@[0] == 'c');
    assert("field_declaration"@.len() == 17 && "field_definition"@.len() == 16);
    assert("field_declaration"@.len() == 17 && "function_declaration"@.len() == 20);
    assert("field_declaration"@.len() == 17 && "function_expression"@.len() == 19);
    assert("field_declaration"@[0] == 'f' && "method_definition"@[0] == 'm');
    assert("field_declaration"@.len() == 17 && "variable_declarator"@.len() == 19);
}

// ---------------------------------------------------------------------------------------------
// TypeScript
// ---------------------------------------------------------------------------------------------

/// What a node of TypeScript is listed as, and the field that holds its name.
pub open spec fn typescript_kind(node: Seq<char>) -> Option<(Seq<char>, Seq<char>)> {
    if node == "class_declaration"@ {
        Some(("class"@, "name"@))
    } else if node == "abstract_class_declaration"@ {
        Some(("class"@, "name"@))
    } else if node == "interface_declaration"@ {
        Some(("interface"@, "name"@))
    } else if node == "internal_module"@ {
        Some(("module"@, "name"@))
    } else if node == "enum_declaration"@ {
        Some(("enum"@, "name"@))
    } else if node == "type_alias_declaration"@ {
        Some(("type"@, "name"@))
    } else if node == "function_declaration"@ {
        Some(("function"@, "name"@))
    } else if node == "method_definition"@ {
        Some(("method"@, "name"@))
    } else if node == "abstract_method_signature"@ {
        Some(("method"@, "name"@))
    } else if node == "public_field_definition"@ {
        Some(("field"@, "name"@))
    } else {
        None
    }
}

/// The nodes of TypeScript that nothing is listed below.
pub open spec fn typescript_closed(node: Seq<char>) -> bool {
    ||| node == "type_alias_declaration"@
    ||| node == "function_declaration"@
    ||| node == "method_definition"@
    ||| node == "abstract_method_signature"@
    ||| node == "public_field_definition"@
    ||| node == "variable_declarator"@
}

/// A TypeScript file lists its classes, interfaces, namespaces, enums, type aliases, functions, methods and fields wherever they lie, but in a type alias, a function, a method, a field or a declarator, nor in the body of an interface or an enum: each under its kind, with the name
/// that stands in the declaration.
pub proof fn law_typescript_declarations(p: Parsed, i: int, c: int, name: Seq<char>)
    requires
        p.language == typescript::typescript_model() || p.language == typescript::tsx_model(),
        members::fields_are_children(p.rows),
        members::above(p.rows, 0, i),
        p.rows[i].named,
        typescript_kind(p.rows[i].kind) is Some,
        forall|a: int| #[trigger]
            members::above(p.rows, a, i) ==> (a > 0 ==> p.rows[a].named) && !typescript_closed(p.rows[a].kind),
        forall|t: int|
            #![trigger p.rows[t]]
            0 <= t <= i && (t == i || members::above(p.rows, t, i)) ==> p.rows[t].kind != "object_type"@ && p.rows[t].kind != "enum_body"@,
        is_name_in(p, i, (typescript_kind(p.rows[i].kind)->0).1, c, name),
    ensures
        is_listed(p, i, (typescript_kind(p.rows[i].kind)->0).0, name),
{
    let specs = p.language.members;
    let kind = p.rows[i].kind;
    reveal_with_fuel(ast::rule_for, 14);
    lemma_typescript_literals();
    members::lemma_rule(specs, kind, 0);
    let s = choose|s: int| #[trigger] members::is_rule(specs, kind, s);
    members::lemma_rule_is(specs, kind, s);
    assert forall|a: int| #[trigger] members::above(p.rows, a, i) implies members::is_open(p, a, i) by {
        assert forall|t: int| #[trigger] members::is_rule(specs, p.rows[a].kind, t) implies specs[t].rule
            != MemberRule::FunctionValue && specs[t].rule != MemberRule::Decorated && (specs[t].rule
            == MemberRule::Plain ==> specs[t].container) by {
            members::lemma_rule_is(specs, p.rows[a].kind, t);
        }
        assert forall|t: int| #[trigger] members::is_rule(specs, p.rows[a].kind, t) implies (
        specs[t].body_kind matches Some(left_out) ==> left_out == "object_type"@ || left_out
            == "enum_body"@) by {
            members::lemma_rule_is(specs, p.rows[a].kind, t);
        }
    }
    lemma_listed(p, i, s, c, name);
}

proof fn lemma_typescript_literals()
    ensures
        !"name"@.contains('.') && !"type"@.contains('.') && !"property"@.contains('.'),
        !typescript_closed("export_statement"@),
        typescript_kind("export_statement"@) is None,
        typescript_kind("variable_declarator"@) is None,
        typescript_kind("field_declaration"@) is None,
{
    reveal_strlit("name");
    reveal_strlit("type");
    reveal_strlit("property");
    reveal_strlit("abstract_class_declaration");
    reveal_strlit("abstract_method_signature");
    reveal_strlit("class_declaration");
    reveal_strlit("enum_body");
    reveal_strlit("enum_declaration");
    reveal_strlit("export_statement");
    reveal_strlit("field_declaration");
    reveal_strlit("function_declaration");
    reveal_strlit("interface_declaration");
    reveal_strlit("internal_module");
    reveal_strlit("method_definition");
    reveal_strlit("object_type");
    reveal_strlit("public_field_definition");
    reveal_strlit("type_alias_declaration");
    reveal_strlit("variable_declarator");
    assert("export_statement"@.len() == 16 && "abstract_class_declaration"@.len() == 26);
    assert("export_statement"@.len() == 16 && "abstract_method_signature"@.len() == 25);
    assert("export_statement"@.len() == 16 && "class_declaration"@.len() == 17);
    assert("export_statement"@[1] == 'x' && "enum_declaration"@[1] == 'n');
    assert("export_statement"@.len() == 16 && "function_declaration"@.len() == 20);
    assert("export_statement"@.len() == 16 && "interface_declaration"@.len() == 21);
    assert("export_statement"@.len() == 16 && "internal_module"@.len() == 15);
    assert("export_statement"@.len() == 16 && "method_definition"@.len() == 17);
    assert("export_statement"@.len() == 16 && "public_field_definition"@.len() == 23);
    assert("export_statement"@.len() == 16 && "type_alias_declaration"@.len() == 22);
    assert("export_statement"@.len() == 16 && "variable_declarator"@.len() == 19);
    assert("variable_declarator"@.len() == 19 && "abstract_class_declaration"@.len() == 26);
    assert("variable_declarator"@.len() == 19 && "abstract_method_signature"@.len() == 25);
    assert("variable_declarator"@.len() == 19 && "class_declaration"@.len() == 17);
    assert("variable_declarator"@.len() == 19 && "enum_declaration"@.len() == 16);
    assert("variable_declarator"@.len() == 19 && "function_declaration"@.len() == 20);
    assert("variable_declarator"@.len() == 19 && "interface_declaration"@.len() == 21);
    assert("variable_declarator"@.len() == 19 && "internal_module"@.len() == 15);
    assert("variable_declarator"@.len() == 19 && "method_definition"@.len() == 17);
    assert("variable_declarator"@.len() == 19 && "public_field_definition"@.len() == 23);
    assert("variable_declarator"@.len() == 19 && "type_alias_declaration"@.len() == 22);
    assert("field_declaration"@.len() == 17 && "abstract_class_declaration"@.len() == 26);
    assert("field_declaration"@.len() == 17 && "abstract_method_signature"@.len() == 25);
    assert("field_declaration"@[0] == 'f' && "class_declaration"@[0] == 'c');
    assert("field_declaration"@.len() == 17 && "enum_declaration"@.len() == 16);
    assert("field_declaration"@.len() == 17 && "function_declaration"@.len() == 20);
    assert("field_declaration"@.len() == 17 && "interface_declaration"@.len() == 21);
    assert("field_declaration"@.len() == 17 && "internal_module"@.len() == 15);
    assert("field_declaration"@[0] == 'f' && "method_definition"@[0] == 'm');
    assert("field_declaration"@.len() == 17 && "public_field_definition"@.len() == 23);
    assert("field_declaration"@.len() == 17 && "type_alias_declaration"@.len() == 22);
    assert("field_declaration"@.len() == 17 && "variable_declarator"@.len() == 19);
}

// ---------------------------------------------------------------------------------------------
// Functions that are bound to names
// ---------------------------------------------------------------------------------------------

/// A declarator of JavaScript or TypeScript whose value is a function is listed as a function,
/// wherever classes can lie.
pub proof fn law_bound_functions(p: Parsed, i: int, v: int, c: int, name: Seq<char>)
    requires
        p.language == javascript::javascript_model() || p.language
            == typescript::typescript_model() || p.language == typescript::tsx_model(),
        members::fields_are_children(p.rows),
        members::above(p.rows, 0, i),
        p.rows[i].named,
        p.rows[i].kind == "variable_declarator"@,
        members::has_in_field(p.rows, i, "value"@, v),
        p.rows[v].kind == "arrow_function"@ || p.rows[v].kind == "function_expression"@,
        forall|a: int| #[trigger]
            members::above(p.rows, a, i) ==> (a > 0 ==> p.rows[a].named) && !javascript_closed(
                p.rows[a].kind,
            ) && !typescript_closed(p.rows[a].kind),
        forall|t: int|
            #![trigger p.rows[t]]
            0 <= t <= i && (t == i || members::above(p.rows, t, i)) ==> p.rows[t].kind
                != "object_type"@ && p.rows[t].kind != "enum_body"@,
        is_name_in(p, i, "name"@, c, name),
    ensures
        is_listed(p, i, "function"@, name),
{
    let specs = p.language.members;
    let kind = p.rows[i].kind;
    reveal_with_fuel(ast::rule_for, 14);
    lemma_javascript_literals();
    lemma_typescript_literals();
    lemma_declarator_literals();
    members::law_field_child(p.rows, i, "value"@, v);
    assert(members::binds(p, i)) by {
        assert(p.rows[v].kind == p.rows[v].kind);
    }
    members::lemma_rule(specs, kind, 0);
    let s = choose|s: int| #[trigger] members::is_rule(specs, kind, s);
    members::lemma_rule_is(specs, kind, s);
    assert forall|a: int| #[trigger] members::above(p.rows, a, i) implies members::is_open(
        p,
        a,
        i,
    ) && !members::is_function(p, a) by {
        assert forall|t: int| #[trigger] members::is_rule(
            specs,
            p.rows[a].kind,
            t,
        ) implies specs[t].rule != MemberRule::FunctionValue && specs[t].rule
            != MemberRule::Decorated && (specs[t].rule == MemberRule::Plain ==> specs[t].container
            && specs[t].member_kind != "function"@) && (specs[t].body_kind matches Some(left_out)
            ==> left_out == "object_type"@ || left_out == "enum_body"@) by {
            members::lemma_rule_is(specs, p.rows[a].kind, t);
        }
    }
    lemma_listed(p, i, s, c, name);
}

proof fn lemma_declarator_literals()
    ensures
        "function"@ != "class"@ && "function"@ != "interface"@ && "function"@ != "module"@
            && "function"@ != "enum"@,
{
    reveal_strlit("function");
    reveal_strlit("class");
    reveal_strlit("interface");
    reveal_strlit("module");
    reveal_strlit("enum");
    assert("function"@.len() == 8 && "class"@.len() == 5 && "interface"@.len() == 9);
    assert("module"@.len() == 6 && "enum"@.len() == 4);
}

// ---------------------------------------------------------------------------------------------
// Python
// ---------------------------------------------------------------------------------------------

proof fn lemma_python_literals()
    ensures
        !"name"@.contains('.') && !"left"@.contains('.'),
        "assignment"@ != "class_definition"@ && "assignment"@ != "function_definition"@,
        "assignment"@ != "decorated_definition"@,
        "class_definition"@ != "function_definition"@,
        "decorated_definition"@ != "class_definition"@,
        "decorated_definition"@ != "function_definition"@,
        "class"@ != "function"@ && "constant"@ != "method"@ && "class"@ != "method"@,
        "function"@ != "method"@,
{
    reveal_strlit("name");
    reveal_strlit("left");
    reveal_strlit("assignment");
    reveal_strlit("class_definition");
    reveal_strlit("function_definition");
    reveal_strlit("decorated_definition");
    reveal_strlit("class");
    reveal_strlit("function");
    reveal_strlit("constant");
    reveal_strlit("method");
    assert("assignment"@.len() == 10 && "class_definition"@.len() == 16);
    assert("function_definition"@.len() == 19 && "decorated_definition"@.len() == 20);
    assert("class"@.len() == 5 && "function"@.len() == 8 && "constant"@.len() == 8);
    assert("method"@.len() == 6);
}

/// Whether a Python node lets what lies below it be listed on the way to the row `i`: it is no
/// assignment, and a decorated definition leads through what it decorates.
pub open spec fn python_opens(p: Parsed, a: int, i: int) -> bool {
    &&& a > 0 ==> p.rows[a].named
    &&& p.rows[a].kind != "assignment"@
    &&& p.rows[a].kind == "decorated_definition"@ ==> forall|d: int| #[trigger]
        members::has_in_field(p.rows, a, "definition"@, d) ==> members::above(p.rows, d, i)
            && p.rows[d].kind != "decorated_definition"@
}

proof fn lemma_in_field(p: Parsed, i: int, field: Seq<char>, c: int)
    requires
        0 <= i < p.rows.len(),
        ast::field_child(p.rows, i, field) == Some(c),
    ensures
        members::has_in_field(p.rows, i, field, c),
{
    let fields = p.rows[i].fields;
    members::lemma_above(p.rows, i, c);
    lemma_first_entry(fields, field, 0);
    let k = choose|k: int|
        0 <= k < fields.len() && (#[trigger] fields[k]).0 == field && Some(fields[k].1)
            == grammar::field_entry(fields, field, 0) && forall|j: int|
            0 <= j < k ==> (#[trigger] fields[j]).0 != field;
    assert(p.rows[i].fields[k].0 == field);
}

proof fn lemma_first_entry(fields: Seq<(Seq<char>, usize)>, field: Seq<char>, i: int)
    requires
        0 <= i,
        grammar::field_entry(fields, field, i) is Some,
        forall|j: int| 0 <= j < i ==> (#[trigger] fields[j]).0 != field,
    ensures
        exists|k: int|
            0 <= k < fields.len() && (#[trigger] fields[k]).0 == field && Some(fields[k].1)
                == grammar::field_entry(fields, field, i) && forall|j: int|
                0 <= j < k ==> (#[trigger] fields[j]).0 != field,
    decreases fields.len() - i,
{
    if fields[i].0 != field {
        lemma_first_entry(fields, field, i + 1);
    }
}

proof fn lemma_python_open(p: Parsed, a: int, i: int)
    requires
        p.language == python::python_model(),
        members::above(p.rows, a, i),
        python_opens(p, a, i),
        forall|d: int| #[trigger]
            members::above(p.rows, d, i) ==> p.rows[d].kind != "assignment"@,
    ensures
        members::is_open(p, a, i),
        members::is_function(p, a) ==> p.rows[a].kind == "function_definition"@,
{
    let specs = p.language.members;
    reveal_with_fuel(ast::rule_for, 6);
    lemma_python_literals();
    assert forall|t: int| #[trigger] members::is_rule(specs, p.rows[a].kind, t) implies specs[t].rule
        != MemberRule::FunctionValue && (specs[t].rule == MemberRule::Plain ==> specs[t].container)
        && specs[t].body_kind is None && (specs[t].rule == MemberRule::Decorated
        ==> p.rows[a].kind == "decorated_definition"@) && (specs[t].rule == MemberRule::Plain
        && specs[t].member_kind == "function"@ ==> p.rows[a].kind == "function_definition"@) by {
        members::lemma_rule_is(specs, p.rows[a].kind, t);
    }
    assert forall|c: int, t: int|
        p.rows[a].kind == "decorated_definition"@ && ast::field_child(p.rows, a, "definition"@)
            == Some(c) && #[trigger] members::is_rule(
            specs,
            p.rows[c].kind,
            t,
        ) implies members::above(p.rows, c, i) && specs[t].rule == MemberRule::Plain by {
        lemma_in_field(p, a, "definition"@, c);
        members::lemma_rule_is(specs, p.rows[c].kind, t);
    }
}

/// A Python assignment outside functions to a name in capitals is listed as a constant of that name:
/// capital letters, digits and underscores, in a module or a class, decorated or not.
pub proof fn law_python_constants(p: Parsed, i: int, c: int, name: Seq<char>)
    requires
        p.language == python::python_model(),
        members::fields_are_children(p.rows),
        members::above(p.rows, 0, i),
        p.rows[i].named,
        p.rows[i].kind == "assignment"@,
        members::has_in_field(p.rows, i, "left"@, c),
        p.rows[c].kind == "identifier"@,
        ast::node_text(p, c) == Some(name),
        members::in_capitals(name),
        forall|a: int| #[trigger]
            members::above(p.rows, a, i) ==> python_opens(p, a, i) && p.rows[a].kind
                != "function_definition"@,
    ensures
        is_listed(p, i, "constant"@, name),
{
    let specs = p.language.members;
    let kind = p.rows[i].kind;
    reveal_with_fuel(ast::rule_for, 6);
    lemma_python_literals();
    members::lemma_rule(specs, kind, 0);
    let s = choose|s: int| #[trigger] members::is_rule(specs, kind, s);
    members::lemma_rule_is(specs, kind, s);
    members::law_field_child(p.rows, i, "left"@, c);
    assert(members::binds(p, i)) by {
        assert(p.rows[c].kind == "identifier"@);
    }
    assert forall|a: int| #[trigger] members::above(p.rows, a, i) implies members::is_open(
        p,
        a,
        i,
    ) && !members::is_function(p, a) by {
        lemma_python_open(p, a, i);
    }
    assert(65 <= name[0] as int <= 90 || 48 <= name[0] as int <= 57 || name[0] as int == 95);
    let last = name[name.len() - 1] as int;
    assert(65 <= last <= 90 || 48 <= last <= 57 || last == 95);
    lemma_listed(p, i, s, c, name);
}

/// A Python class or function is listed under its name wherever it lies, in other functions too.
pub proof fn law_python_definitions(p: Parsed, i: int, c: int, name: Seq<char>)
    requires
        p.language == python::python_model(),
        members::fields_are_children(p.rows),
        members::above(p.rows, 0, i),
        p.rows[i].named,
        p.rows[i].kind == "class_definition"@ || p.rows[i].kind == "function_definition"@,
        is_name_in(p, i, "name"@, c, name),
        forall|a: int| #[trigger] members::above(p.rows, a, i) ==> python_opens(p, a, i),
    ensures
        p.rows[i].kind == "class_definition"@ ==> is_listed(p, i, "class"@, name),
        p.rows[i].kind == "function_definition"@ ==> is_listed(p, i, "function"@, name),
{
    let specs = p.language.members;
    let kind = p.rows[i].kind;
    reveal_with_fuel(ast::rule_for, 6);
    lemma_python_literals();
    members::lemma_rule(specs, kind, 0);
    let s = choose|s: int| #[trigger] members::is_rule(specs, kind, s);
    members::lemma_rule_is(specs, kind, s);
    assert forall|a: int| #[trigger] members::above(p.rows, a, i) implies members::is_open(
        p,
        a,
        i,
    ) by {
        lemma_python_open(p, a, i);
    }
    lemma_listed(p, i, s, c, name);
}

/// A decorated Python class or function is listed once, with the lines of its decorators, under the
/// kind and name of what is decorated.
pub proof fn law_python_decorated(p: Parsed, i: int, d: int, c: int, name: Seq<char>)
    requires
        p.language == python::python_model(),
        members::fields_are_children(p.rows),
        members::above(p.rows, 0, i),
        p.rows[i].named,
        p.rows[i].kind == "decorated_definition"@,
        members::has_in_field(p.rows, i, "definition"@, d),
        p.rows[d].kind == "class_definition"@ || p.rows[d].kind == "function_definition"@,
        is_name_in(p, d, "name"@, c, name),
        forall|a: int| #[trigger] members::above(p.rows, a, i) ==> python_opens(p, a, i),
    ensures
        p.rows[d].kind == "class_definition"@ ==> is_listed(p, i, "class"@, name),
        p.rows[d].kind == "function_definition"@ ==> is_listed(p, i, "function"@, name),
{
    let specs = p.language.members;
    reveal_with_fuel(ast::rule_for, 6);
    lemma_python_literals();
    members::lemma_rule(specs, p.rows[i].kind, 0);
    let s = choose|s: int| #[trigger] members::is_rule(specs, p.rows[i].kind, s);
    members::lemma_rule_is(specs, p.rows[i].kind, s);
    members::lemma_rule(specs, p.rows[d].kind, 0);
    let t = choose|t: int| #[trigger] members::is_rule(specs, p.rows[d].kind, t);
    members::lemma_rule_is(specs, p.rows[d].kind, t);
    members::law_field_child(p.rows, i, "definition"@, d);
    let none = Seq::<char>::empty();
    assert(none + name + none =~= name);
    members::law_declared_name(p, d, specs[t], "name"@, c, none, name, none);
    assert forall|a: int| #[trigger] members::above(p.rows, a, i) implies members::is_open(
        p,
        a,
        i,
    ) by {
        lemma_python_open(p, a, i);
    }
    assert(members::declares(p, i));
    assert(members::is_reached(p, 0, i, false, None)) by {
        if members::has_rule(p, i, MemberRule::FunctionValue) {
            let u = choose|u: int| #[trigger]
                members::is_rule(specs, p.rows[i].kind, u) && specs[u].rule
                    == MemberRule::FunctionValue;
            members::lemma_rule_is(specs, p.rows[i].kind, u);
        }
    }
    members::law_members_are_the_declarations(p);
    let all = ast::collected(p).members;
    let at = choose|at: Seq<int>| #[trigger] members::lists(p, all, at);
    members::lemma_above(p.rows, 0, i);
    let k = at.index_of(i);
    assert(members::is_told(p, all, at, k));
    let u = choose|u: int| #[trigger]
        members::is_rule(specs, p.rows[i].kind, u) && members::is_declared_by(
            p,
            i,
            specs[u],
            all[k],
        );
    members::lemma_rule_is(specs, p.rows[i].kind, u);
    let (e, v) = choose|e: int, v: int|
        ast::field_child(p.rows, i, "definition"@) == Some(e) && #[trigger] members::is_rule(
            specs,
            p.rows[e].kind,
            v,
        ) && members::is_called(all[k], specs[v].member_kind, ast::declared_name(p, e, specs[v]));
    members::lemma_rule_is(specs, p.rows[d].kind, v);
    assert(members::is_called(all[k], specs[t].member_kind, name));
}

// ---------------------------------------------------------------------------------------------
// What is not listed
// ---------------------------------------------------------------------------------------------

/// Nothing else of a Java file is listed, and nothing in a method, a constructor, a field or an enum constant.
pub proof fn law_java_lists_nothing_else(p: Parsed)
    requires
        p.language == java::java_model(),
        members::fields_are_children(p.rows),
        p.rows.len() > 0,
    ensures
        exists|at: Seq<int>| #[trigger]
            members::lists(p, ast::collected(p).members, at) && {
                &&& forall|k: int|
                    0 <= k < at.len() ==> java_kind((#[trigger] p.rows[at[k]]).kind) is Some || p.rows[at[k]].kind == "field_declaration"@
                &&& forall|k: int, a: int|
                    0 <= k < at.len() && #[trigger] members::above(p.rows, a, at[k])
                        ==> !java_closed(p.rows[a].kind)
            },
{
    let specs = p.language.members;
    reveal_with_fuel(ast::rule_for, 11);
    members::law_members_are_the_declarations(p);
    let at = choose|at: Seq<int>| #[trigger] members::lists(p, ast::collected(p).members, at);
    assert forall|k: int| 0 <= k < at.len() implies java_kind((#[trigger] p.rows[at[k]]).kind) is Some || p.rows[at[k]].kind == "field_declaration"@ by {
        assert(members::is_told(p, ast::collected(p).members, at, k));
        let s = choose|s: int| #[trigger]
            members::is_rule(specs, p.rows[at[k]].kind, s) && members::is_declared_by(
                p,
                at[k],
                specs[s],
                ast::collected(p).members[k],
            );
        members::lemma_rule_is(specs, p.rows[at[k]].kind, s);
    }
    assert forall|k: int, a: int|
        0 <= k < at.len() && #[trigger] members::above(p.rows, a, at[k])
        implies !java_closed(p.rows[a].kind) by {
        assert(members::is_told(p, ast::collected(p).members, at, k));
        if java_closed(p.rows[a].kind) {
            lemma_java_closed(p.rows[a].kind);
            members::lemma_rule(specs, p.rows[a].kind, 0);
            let s = choose|s: int| #[trigger]
                members::is_rule(specs, p.rows[a].kind, s) && specs[s] == ast::rule_for(
                    specs,
                    p.rows[a].kind,
                    0,
                )->0;
            assert(members::is_closed(p, a));
            let j = choose|j: int| #[trigger]
                members::has_rule(p, j, MemberRule::Decorated) && ast::field_child(
                    p.rows,
                    j,
                    "definition"@,
                ) == Some(a);
            let t = choose|t: int| #[trigger]
                members::is_rule(specs, p.rows[j].kind, t) && specs[t].rule
                    == MemberRule::Decorated;
            members::lemma_rule_is(specs, p.rows[j].kind, t);
        }
    }
}

proof fn lemma_java_closed(node: Seq<char>)
    requires
        java_closed(node),
    ensures
        ast::rule_for(java::java_members_model(), node, 0) matches Some(spec) && (spec.rule == MemberRule::FunctionValue
            || (spec.rule == MemberRule::Plain && !spec.container)),
{
    reveal_with_fuel(ast::rule_for, 11);
    reveal_strlit("class_declaration");
    reveal_strlit("interface_declaration");
    reveal_strlit("enum_declaration");
    reveal_strlit("record_declaration");
    reveal_strlit("annotation_type_declaration");
    reveal_strlit("method_declaration");
    reveal_strlit("constructor_declaration");
    reveal_strlit("field_declaration");
    reveal_strlit("enum_constant");
    assert("method_declaration"@.len() == 18 && "class_declaration"@.len() == 17);
    assert("method_declaration"@.len() == 18 && "interface_declaration"@.len() == 21);
    assert("method_declaration"@.len() == 18 && "enum_declaration"@.len() == 16);
    assert("method_declaration"@[0] == 'm' && "record_declaration"@[0] == 'r');
    assert("method_declaration"@.len() == 18 && "annotation_type_declaration"@.len() == 27);
    assert("method_declaration"@.len() == 18 && "constructor_declaration"@.len() == 23);
    assert("method_declaration"@.len() == 18 && "field_declaration"@.len() == 17);
    assert("method_declaration"@.len() == 18 && "enum_constant"@.len() == 13);
    assert("constructor_declaration"@.len() == 23 && "class_declaration"@.len() == 17);
    assert("constructor_declaration"@.len() == 23 && "interface_declaration"@.len() == 21);
    assert("constructor_declaration"@.len() == 23 && "enum_declaration"@.len() == 16);
    assert("constructor_declaration"@.len() == 23 && "record_declaration"@.len() == 18);
    assert("constructor_declaration"@.len() == 23 && "annotation_type_declaration"@.len() == 27);
    assert("constructor_declaration"@.len() == 23 && "field_declaration"@.len() == 17);
    assert("constructor_declaration"@.len() == 23 && "enum_constant"@.len() == 13);
    assert("field_declaration"@[0] == 'f' && "class_declaration"@[0] == 'c');
    assert("field_declaration"@.len() == 17 && "interface_declaration"@.len() == 21);
    assert("field_declaration"@.len() == 17 && "enum_declaration"@.len() == 16);
    assert("field_declaration"@.len() == 17 && "record_declaration"@.len() == 18);
    assert("field_declaration"@.len() == 17 && "annotation_type_declaration"@.len() == 27);
    assert("field_declaration"@.len() == 17 && "enum_constant"@.len() == 13);
    assert("enum_constant"@.len() == 13 && "class_declaration"@.len() == 17);
    assert("enum_constant"@.len() == 13 && "interface_declaration"@.len() == 21);
    assert("enum_constant"@.len() == 13 && "enum_declaration"@.len() == 16);
    assert("enum_constant"@.len() == 13 && "record_declaration"@.len() == 18);
    assert("enum_constant"@.len() == 13 && "annotation_type_declaration"@.len() == 27);
}

/// Nothing else of a Rust file is listed, and nothing in a function, a type or a constant.
pub proof fn law_rust_lists_nothing_else(p: Parsed)
    requires
        p.language == rust::rust_model(),
        members::fields_are_children(p.rows),
        p.rows.len() > 0,
    ensures
        exists|at: Seq<int>| #[trigger]
            members::lists(p, ast::collected(p).members, at) && {
                &&& forall|k: int|
                    0 <= k < at.len() ==> rust_kind((#[trigger] p.rows[at[k]]).kind) is Some
                &&& forall|k: int, a: int|
                    0 <= k < at.len() && #[trigger] members::above(p.rows, a, at[k])
                        ==> !rust_closed(p.rows[a].kind)
            },
{
    let specs = p.language.members;
    reveal_with_fuel(ast::rule_for, 12);
    members::law_members_are_the_declarations(p);
    let at = choose|at: Seq<int>| #[trigger] members::lists(p, ast::collected(p).members, at);
    assert forall|k: int| 0 <= k < at.len() implies rust_kind((#[trigger] p.rows[at[k]]).kind) is Some by {
        assert(members::is_told(p, ast::collected(p).members, at, k));
        let s = choose|s: int| #[trigger]
            members::is_rule(specs, p.rows[at[k]].kind, s) && members::is_declared_by(
                p,
                at[k],
                specs[s],
                ast::collected(p).members[k],
            );
        members::lemma_rule_is(specs, p.rows[at[k]].kind, s);
    }
    assert forall|k: int, a: int|
        0 <= k < at.len() && #[trigger] members::above(p.rows, a, at[k])
        implies !rust_closed(p.rows[a].kind) by {
        assert(members::is_told(p, ast::collected(p).members, at, k));
        if rust_closed(p.rows[a].kind) {
            lemma_rust_closed(p.rows[a].kind);
            members::lemma_rule(specs, p.rows[a].kind, 0);
            let s = choose|s: int| #[trigger]
                members::is_rule(specs, p.rows[a].kind, s) && specs[s] == ast::rule_for(
                    specs,
                    p.rows[a].kind,
                    0,
                )->0;
            assert(members::is_closed(p, a));
            let j = choose|j: int| #[trigger]
                members::has_rule(p, j, MemberRule::Decorated) && ast::field_child(
                    p.rows,
                    j,
                    "definition"@,
                ) == Some(a);
            let t = choose|t: int| #[trigger]
                members::is_rule(specs, p.rows[j].kind, t) && specs[t].rule
                    == MemberRule::Decorated;
            members::lemma_rule_is(specs, p.rows[j].kind, t);
        }
    }
}

proof fn lemma_rust_closed(node: Seq<char>)
    requires
        rust_closed(node),
    ensures
        ast::rule_for(rust::rust_members_model(), node, 0) matches Some(spec) && (spec.rule == MemberRule::FunctionValue
            || (spec.rule == MemberRule::Plain && !spec.container)),
{
    reveal_with_fuel(ast::rule_for, 12);
    reveal_strlit("mod_item");
    reveal_strlit("impl_item");
    reveal_strlit("trait_item");
    reveal_strlit("struct_item");
    reveal_strlit("enum_item");
    reveal_strlit("function_item");
    reveal_strlit("const_item");
    reveal_strlit("static_item");
    reveal_strlit("type_item");
    reveal_strlit("macro_definition");
    assert("struct_item"@.len() == 11 && "mod_item"@.len() == 8);
    assert("struct_item"@.len() == 11 && "impl_item"@.len() == 9);
    assert("struct_item"@.len() == 11 && "trait_item"@.len() == 10);
    assert("struct_item"@.len() == 11 && "enum_item"@.len() == 9);
    assert("struct_item"@.len() == 11 && "function_item"@.len() == 13);
    assert("struct_item"@.len() == 11 && "const_item"@.len() == 10);
    assert("struct_item"@[2] == 'r' && "static_item"@[2] == 'a');
    assert("struct_item"@.len() == 11 && "type_item"@.len() == 9);
    assert("struct_item"@.len() == 11 && "macro_definition"@.len() == 16);
    assert("enum_item"@.len() == 9 && "mod_item"@.len() == 8);
    assert("enum_item"@[0] == 'e' && "impl_item"@[0] == 'i');
    assert("enum_item"@.len() == 9 && "trait_item"@.len() == 10);
    assert("enum_item"@.len() == 9 && "function_item"@.len() == 13);
    assert("enum_item"@.len() == 9 && "const_item"@.len() == 10);
    assert("enum_item"@.len() == 9 && "static_item"@.len() == 11);
    assert("enum_item"@[0] == 'e' && "type_item"@[0] == 't');
    assert("enum_item"@.len() == 9 && "macro_definition"@.len() == 16);
    assert("function_item"@.len() == 13 && "mod_item"@.len() == 8);
    assert("function_item"@.len() == 13 && "impl_item"@.len() == 9);
    assert("function_item"@.len() == 13 && "trait_item"@.len() == 10);
    assert("function_item"@.len() == 13 && "const_item"@.len() == 10);
    assert("function_item"@.len() == 13 && "static_item"@.len() == 11);
    assert("function_item"@.len() == 13 && "type_item"@.len() == 9);
    assert("function_item"@.len() == 13 && "macro_definition"@.len() == 16);
    assert("const_item"@.len() == 10 && "mod_item"@.len() == 8);
    assert("const_item"@.len() == 10 && "impl_item"@.len() == 9);
    assert("const_item"@[0] == 'c' && "trait_item"@[0] == 't');
    assert("const_item"@.len() == 10 && "static_item"@.len() == 11);
    assert("const_item"@.len() == 10 && "type_item"@.len() == 9);
    assert("const_item"@.len() == 10 && "macro_definition"@.len() == 16);
    assert("static_item"@.len() == 11 && "mod_item"@.len() == 8);
    assert("static_item"@.len() == 11 && "impl_item"@.len() == 9);
    assert("static_item"@.len() == 11 && "trait_item"@.len() == 10);
    assert("static_item"@.len() == 11 && "type_item"@.len() == 9);
    assert("static_item"@.len() == 11 && "macro_definition"@.len() == 16);
    assert("type_item"@.len() == 9 && "mod_item"@.len() == 8);
    assert("type_item"@[0] == 't' && "impl_item"@[0] == 'i');
    assert("type_item"@.len() == 9 && "trait_item"@.len() == 10);
    assert("type_item"@.len() == 9 && "macro_definition"@.len() == 16);
    assert("macro_definition"@.len() == 16 && "mod_item"@.len() == 8);
    assert("macro_definition"@.len() == 16 && "impl_item"@.len() == 9);
    assert("macro_definition"@.len() == 16 && "trait_item"@.len() == 10);
}

/// Nothing else of a JavaScript file is listed, and nothing in a function, a method, a field or a declarator.
pub proof fn law_javascript_lists_nothing_else(p: Parsed)
    requires
        p.language == javascript::javascript_model(),
        members::fields_are_children(p.rows),
        p.rows.len() > 0,
    ensures
        exists|at: Seq<int>| #[trigger]
            members::lists(p, ast::collected(p).members, at) && {
                &&& forall|k: int|
                    0 <= k < at.len() ==> javascript_kind((#[trigger] p.rows[at[k]]).kind) is Some || p.rows[at[k]].kind == "variable_declarator"@
                &&& forall|k: int, a: int|
                    0 <= k < at.len() && #[trigger] members::above(p.rows, a, at[k])
                        ==> !javascript_closed(p.rows[a].kind)
            },
{
    let specs = p.language.members;
    reveal_with_fuel(ast::rule_for, 9);
    members::law_members_are_the_declarations(p);
    let at = choose|at: Seq<int>| #[trigger] members::lists(p, ast::collected(p).members, at);
    assert forall|k: int| 0 <= k < at.len() implies javascript_kind((#[trigger] p.rows[at[k]]).kind) is Some || p.rows[at[k]].kind == "variable_declarator"@ by {
        assert(members::is_told(p, ast::collected(p).members, at, k));
        let s = choose|s: int| #[trigger]
            members::is_rule(specs, p.rows[at[k]].kind, s) && members::is_declared_by(
                p,
                at[k],
                specs[s],
                ast::collected(p).members[k],
            );
        members::lemma_rule_is(specs, p.rows[at[k]].kind, s);
    }
    assert forall|k: int, a: int|
        0 <= k < at.len() && #[trigger] members::above(p.rows, a, at[k])
        implies !javascript_closed(p.rows[a].kind) by {
        assert(members::is_told(p, ast::collected(p).members, at, k));
        if javascript_closed(p.rows[a].kind) {
            lemma_javascript_closed(p.rows[a].kind);
            members::lemma_rule(specs, p.rows[a].kind, 0);
            let s = choose|s: int| #[trigger]
                members::is_rule(specs, p.rows[a].kind, s) && specs[s] == ast::rule_for(
                    specs,
                    p.rows[a].kind,
                    0,
                )->0;
            assert(members::is_closed(p, a));
            let j = choose|j: int| #[trigger]
                members::has_rule(p, j, MemberRule::Decorated) && ast::field_child(
                    p.rows,
                    j,
                    "definition"@,
                ) == Some(a);
            let t = choose|t: int| #[trigger]
                members::is_rule(specs, p.rows[j].kind, t) && specs[t].rule
                    == MemberRule::Decorated;
            members::lemma_rule_is(specs, p.rows[j].kind, t);
        }
    }
}

proof fn lemma_javascript_closed(node: Seq<char>)
    requires
        javascript_closed(node),
    ensures
        ast::rule_for(javascript::javascript_members_model(), node, 0) matches Some(spec) && (spec.rule == MemberRule::FunctionValue
            || (spec.rule == MemberRule::Plain && !spec.container)),
{
    reveal_with_fuel(ast::rule_for, 9);
    reveal_strlit("export_statement");
    reveal_strlit("class_declaration");
    reveal_strlit("function_declaration");
    reveal_strlit("function_expression");
    reveal_strlit("method_definition");
    reveal_strlit("field_definition");
    reveal_strlit("variable_declarator");
    assert("function_declaration"@.len() == 20 && "export_statement"@.len() == 16);
    assert("function_declaration"@.len() == 20 && "class_declaration"@.len() == 17);
    assert("function_declaration"@.len() == 20 && "function_expression"@.len() == 19);
    assert("function_declaration"@.len() == 20 && "method_definition"@.len() == 17);
    assert("function_declaration"@.len() == 20 && "field_definition"@.len() == 16);
    assert("function_declaration"@.len() == 20 && "variable_declarator"@.len() == 19);
    assert("function_expression"@.len() == 19 && "export_statement"@.len() == 16);
    assert("function_expression"@.len() == 19 && "class_declaration"@.len() == 17);
    assert("function_expression"@.len() == 19 && "method_definition"@.len() == 17);
    assert("function_expression"@.len() == 19 && "field_definition"@.len() == 16);
    assert("function_expression"@[0] == 'f' && "variable_declarator"@[0] == 'v');
    assert("method_definition"@.len() == 17 && "export_statement"@.len() == 16);
    assert("method_definition"@[0] == 'm' && "class_declaration"@[0] == 'c');
    assert("method_definition"@.len() == 17 && "field_definition"@.len() == 16);
    assert("method_definition"@.len() == 17 && "variable_declarator"@.len() == 19);
    assert("field_definition"@[0] == 'f' && "export_statement"@[0] == 'e');
    assert("field_definition"@.len() == 16 && "class_declaration"@.len() == 17);
    assert("field_definition"@.len() == 16 && "variable_declarator"@.len() == 19);
    assert("variable_declarator"@.len() == 19 && "export_statement"@.len() == 16);
    assert("variable_declarator"@.len() == 19 && "class_declaration"@.len() == 17);
}

/// Nothing else of a TypeScript file is listed, and nothing in a function, a method, a field, a type alias or a declarator.
pub proof fn law_typescript_lists_nothing_else(p: Parsed)
    requires
        p.language == typescript::typescript_model() || p.language == typescript::tsx_model(),
        members::fields_are_children(p.rows),
        p.rows.len() > 0,
    ensures
        exists|at: Seq<int>| #[trigger]
            members::lists(p, ast::collected(p).members, at) && {
                &&& forall|k: int|
                    0 <= k < at.len() ==> typescript_kind((#[trigger] p.rows[at[k]]).kind) is Some || p.rows[at[k]].kind == "variable_declarator"@
                &&& forall|k: int, a: int|
                    0 <= k < at.len() && #[trigger] members::above(p.rows, a, at[k])
                        ==> !typescript_closed(p.rows[a].kind)
            },
{
    let specs = p.language.members;
    reveal_with_fuel(ast::rule_for, 14);
    members::law_members_are_the_declarations(p);
    let at = choose|at: Seq<int>| #[trigger] members::lists(p, ast::collected(p).members, at);
    assert forall|k: int| 0 <= k < at.len() implies typescript_kind((#[trigger] p.rows[at[k]]).kind) is Some || p.rows[at[k]].kind == "variable_declarator"@ by {
        assert(members::is_told(p, ast::collected(p).members, at, k));
        let s = choose|s: int| #[trigger]
            members::is_rule(specs, p.rows[at[k]].kind, s) && members::is_declared_by(
                p,
                at[k],
                specs[s],
                ast::collected(p).members[k],
            );
        members::lemma_rule_is(specs, p.rows[at[k]].kind, s);
    }
    assert forall|k: int, a: int|
        0 <= k < at.len() && #[trigger] members::above(p.rows, a, at[k])
        implies !typescript_closed(p.rows[a].kind) by {
        assert(members::is_told(p, ast::collected(p).members, at, k));
        if typescript_closed(p.rows[a].kind) {
            lemma_typescript_closed(p.rows[a].kind);
            members::lemma_rule(specs, p.rows[a].kind, 0);
            let s = choose|s: int| #[trigger]
                members::is_rule(specs, p.rows[a].kind, s) && specs[s] == ast::rule_for(
                    specs,
                    p.rows[a].kind,
                    0,
                )->0;
            assert(members::is_closed(p, a));
            let j = choose|j: int| #[trigger]
                members::has_rule(p, j, MemberRule::Decorated) && ast::field_child(
                    p.rows,
                    j,
                    "definition"@,
                ) == Some(a);
            let t = choose|t: int| #[trigger]
                members::is_rule(specs, p.rows[j].kind, t) && specs[t].rule
                    == MemberRule::Decorated;
            members::lemma_rule_is(specs, p.rows[j].kind, t);
        }
    }
}

proof fn lemma_typescript_closed(node: Seq<char>)
    requires
        typescript_closed(node),
    ensures
        ast::rule_for(typescript::typescript_members_model(), node, 0) matches Some(spec) && (spec.rule == MemberRule::FunctionValue
            || (spec.rule == MemberRule::Plain && !spec.container)),
{
    reveal_with_fuel(ast::rule_for, 14);
    reveal_strlit("export_statement");
    reveal_strlit("class_declaration");
    reveal_strlit("abstract_class_declaration");
    reveal_strlit("interface_declaration");
    reveal_strlit("internal_module");
    reveal_strlit("enum_declaration");
    reveal_strlit("type_alias_declaration");
    reveal_strlit("function_declaration");
    reveal_strlit("method_definition");
    reveal_strlit("abstract_method_signature");
    reveal_strlit("public_field_definition");
    reveal_strlit("variable_declarator");
    assert("type_alias_declaration"@.len() == 22 && "export_statement"@.len() == 16);
    assert("type_alias_declaration"@.len() == 22 && "class_declaration"@.len() == 17);
    assert("type_alias_declaration"@.len() == 22 && "abstract_class_declaration"@.len() == 26);
    assert("type_alias_declaration"@.len() == 22 && "interface_declaration"@.len() == 21);
    assert("type_alias_declaration"@.len() == 22 && "internal_module"@.len() == 15);
    assert("type_alias_declaration"@.len() == 22 && "enum_declaration"@.len() == 16);
    assert("type_alias_declaration"@.len() == 22 && "function_declaration"@.len() == 20);
    assert("type_alias_declaration"@.len() == 22 && "method_definition"@.len() == 17);
    assert("type_alias_declaration"@.len() == 22 && "abstract_method_signature"@.len() == 25);
    assert("type_alias_declaration"@.len() == 22 && "public_field_definition"@.len() == 23);
    assert("type_alias_declaration"@.len() == 22 && "variable_declarator"@.len() == 19);
    assert("function_declaration"@.len() == 20 && "export_statement"@.len() == 16);
    assert("function_declaration"@.len() == 20 && "class_declaration"@.len() == 17);
    assert("function_declaration"@.len() == 20 && "abstract_class_declaration"@.len() == 26);
    assert("function_declaration"@.len() == 20 && "interface_declaration"@.len() == 21);
    assert("function_declaration"@.len() == 20 && "internal_module"@.len() == 15);
    assert("function_declaration"@.len() == 20 && "enum_declaration"@.len() == 16);
    assert("function_declaration"@.len() == 20 && "method_definition"@.len() == 17);
    assert("function_declaration"@.len() == 20 && "abstract_method_signature"@.len() == 25);
    assert("function_declaration"@.len() == 20 && "public_field_definition"@.len() == 23);
    assert("function_declaration"@.len() == 20 && "variable_declarator"@.len() == 19);
    assert("method_definition"@.len() == 17 && "export_statement"@.len() == 16);
    assert("method_definition"@[0] == 'm' && "class_declaration"@[0] == 'c');
    assert("method_definition"@.len() == 17 && "abstract_class_declaration"@.len() == 26);
    assert("method_definition"@.len() == 17 && "interface_declaration"@.len() == 21);
    assert("method_definition"@.len() == 17 && "internal_module"@.len() == 15);
    assert("method_definition"@.len() == 17 && "enum_declaration"@.len() == 16);
    assert("method_definition"@.len() == 17 && "abstract_method_signature"@.len() == 25);
    assert("method_definition"@.len() == 17 && "public_field_definition"@.len() == 23);
    assert("method_definition"@.len() == 17 && "variable_declarator"@.len() == 19);
    assert("abstract_method_signature"@.len() == 25 && "export_statement"@.len() == 16);
    assert("abstract_method_signature"@.len() == 25 && "class_declaration"@.len() == 17);
    assert("abstract_method_signature"@.len() == 25 && "abstract_class_declaration"@.len() == 26);
    assert("abstract_method_signature"@.len() == 25 && "interface_declaration"@.len() == 21);
    assert("abstract_method_signature"@.len() == 25 && "internal_module"@.len() == 15);
    assert("abstract_method_signature"@.len() == 25 && "enum_declaration"@.len() == 16);
    assert("abstract_method_signature"@.len() == 25 && "public_field_definition"@.len() == 23);
    assert("abstract_method_signature"@.len() == 25 && "variable_declarator"@.len() == 19);
    assert("public_field_definition"@.len() == 23 && "export_statement"@.len() == 16);
    assert("public_field_definition"@.len() == 23 && "class_declaration"@.len() == 17);
    assert("public_field_definition"@.len() == 23 && "abstract_class_declaration"@.len() == 26);
    assert("public_field_definition"@.len() == 23 && "interface_declaration"@.len() == 21);
    assert("public_field_definition"@.len() == 23 && "internal_module"@.len() == 15);
    assert("public_field_definition"@.len() == 23 && "enum_declaration"@.len() == 16);
    assert("public_field_definition"@.len() == 23 && "variable_declarator"@.len() == 19);
    assert("variable_declarator"@.len() == 19 && "export_statement"@.len() == 16);
    assert("variable_declarator"@.len() == 19 && "class_declaration"@.len() == 17);
    assert("variable_declarator"@.len() == 19 && "abstract_class_declaration"@.len() == 26);
    assert("variable_declarator"@.len() == 19 && "interface_declaration"@.len() == 21);
    assert("variable_declarator"@.len() == 19 && "internal_module"@.len() == 15);
    assert("variable_declarator"@.len() == 19 && "enum_declaration"@.len() == 16);
}

/// Nothing else of a Python file is listed. An assignment is listed only outside functions, and only
/// when it binds a lambda or a name in capitals.
pub proof fn law_python_lists_nothing_else(p: Parsed)
    requires
        p.language == python::python_model(),
        members::fields_are_children(p.rows),
        p.rows.len() > 0,
    ensures
        exists|at: Seq<int>| #[trigger]
            members::lists(p, ast::collected(p).members, at) && forall|k: int|
                0 <= k < at.len() ==> is_python_declaration(p, #[trigger] at[k]),
{
    let specs = p.language.members;
    reveal_with_fuel(ast::rule_for, 6);
    lemma_python_literals();
    members::law_members_are_the_declarations(p);
    let at = choose|at: Seq<int>| #[trigger] members::lists(p, ast::collected(p).members, at);
    assert forall|k: int| 0 <= k < at.len() implies is_python_declaration(p, #[trigger] at[k]) by {
        let i = at[k];
        assert(members::is_told(p, ast::collected(p).members, at, k));
        let s = choose|s: int| #[trigger]
            members::is_rule(specs, p.rows[i].kind, s) && members::is_declared_by(
                p,
                i,
                specs[s],
                ast::collected(p).members[k],
            );
        members::lemma_rule_is(specs, p.rows[i].kind, s);
        assert forall|a: int| #[trigger] members::above(p.rows, a, i) && p.rows[a].kind
            == "function_definition"@ implies members::is_function(p, a) by {
            members::lemma_rule(specs, p.rows[a].kind, 0);
            let t = choose|t: int| #[trigger] members::is_rule(specs, p.rows[a].kind, t);
            members::lemma_rule_is(specs, p.rows[a].kind, t);
            assert(members::is_rule(specs, p.rows[a].kind, t) && specs[t].rule
                == MemberRule::Plain && specs[t].member_kind == "function"@);
        }
    }
}

/// Whether a Python row is one that can be listed.
pub open spec fn is_python_declaration(p: Parsed, i: int) -> bool {
    ||| p.rows[i].kind == "class_definition"@
    ||| p.rows[i].kind == "function_definition"@
    ||| p.rows[i].kind == "decorated_definition"@
    ||| p.rows[i].kind == "assignment"@ && members::binds(p, i) && forall|a: int| #[trigger]
        members::above(p.rows, a, i) ==> p.rows[a].kind != "function_definition"@
}

// ---------------------------------------------------------------------------------------------
// Source files
// ---------------------------------------------------------------------------------------------

/// An extension with its capital letters made small.
pub open spec fn in_small(s: Seq<char>) -> Seq<char> {
    s.map_values(
        |c: char|
            if 65 <= c as int <= 90 {
                (c as int + 32) as char
            } else {
                c
            },
    )
}

/// Whether a language is the one for an extension in small letters, with its grammar and what
/// stands between a name and what lies in it.
pub open spec fn is_language_of(language: Option<LanguageModel>, extension: Seq<char>) -> bool {
    if extension == "ts"@ || extension == "mts"@ || extension == "cts"@ {
        language matches Some(l) && l.grammar == Grammar::TypeScript && l.separator == "."@ && l.id
            == "typescript"@
    } else if extension == "tsx"@ {
        language matches Some(l) && l.grammar == Grammar::Tsx && l.separator == "."@ && l.id
            == "tsx"@
    } else if extension == "js"@ || extension == "mjs"@ || extension == "cjs"@ || extension
        == "jsx"@ {
        language matches Some(l) && l.grammar == Grammar::JavaScript && l.separator == "."@ && l.id
            == "javascript"@
    } else if extension == "java"@ {
        language matches Some(l) && l.grammar == Grammar::Java && l.separator == "."@ && l.id
            == "java"@
    } else if extension == "rs"@ {
        language matches Some(l) && l.grammar == Grammar::Rust && l.separator == "::"@ && l.id
            == "rust"@
    } else if extension == "py"@ || extension == "pyi"@ {
        language matches Some(l) && l.grammar == Grammar::Python && l.separator == "."@ && l.id
            == "python"@
    } else {
        language is None
    }
}

/// The language of a file goes by what follows the last dot of its name, in capital or small
/// letters, when something stands before that dot. The directory it lies in does not matter.
pub proof fn law_language_goes_by_the_extension(
    dir: Seq<char>,
    stem: Seq<char>,
    extension: Seq<char>,
)
    requires
        dir.len() == 0 || dir.last() == '/',
        stem.len() > 0,
        !stem.contains('/'),
        !extension.contains('/'),
        !extension.contains('.'),
    ensures
        is_language_of(
            ast::language_of(dir + stem + seq!['.'] + extension),
            in_small(extension),
        ),
{
    let path = dir + stem + seq!['.'] + extension;
    let name = stem + seq!['.'] + extension;
    lemma_name(dir, name);
    assert(path =~= dir + name);
    text::lemma_last_index(name, '.');
    let dot = text::last_index(name, '.');
    assert(name[stem.len() as int] == '.');
    assert(dot == stem.len()) by {
        assert(name.contains('.'));
        if dot > stem.len() {
            assert(extension[dot - stem.len() - 1] == '.');
        }
    }
    assert(name.skip(dot + 1) =~= extension);
    let small = Seq::new(extension.len(), |i: int| ast::lowered(extension[i]));
    assert(small =~= in_small(extension)) by {
        assert forall|i: int| 0 <= i < extension.len() implies small[i] == in_small(
            extension,
        )[i] by {}
    }
    assert(ast::extension_of(path) == Some(in_small(extension)));
    lemma_lookup(in_small(extension));
}

/// A name without a dot, or with none but its first character, has no language.
pub proof fn law_no_extension_no_language(dir: Seq<char>, name: Seq<char>)
    requires
        dir.len() == 0 || dir.last() == '/',
        !name.contains('/'),
        forall|i: int| 0 < i < name.len() ==> #[trigger] name[i] != '.',
    ensures
        ast::language_of(dir + name) is None,
{
    lemma_name(dir, name);
    text::lemma_last_index(name, '.');
}

proof fn lemma_name(dir: Seq<char>, name: Seq<char>)
    requires
        dir.len() == 0 || dir.last() == '/',
        !name.contains('/'),
    ensures
        repo::name_of(dir + name) == name,
{
    let path = dir + name;
    text::lemma_last_index(path, '/');
    let slash = text::last_index(path, '/');
    if slash >= dir.len() {
        assert(name[slash - dir.len()] == '/');
    } else if dir.len() > 0 {
        assert(path[dir.len() - 1] == '/');
    }
    assert(path.skip(slash + 1) =~= name);
}

proof fn lemma_lookup(extension: Seq<char>)
    ensures
        is_language_of(ast::language_with(ast::languages(), extension, 0), extension),
{
    reveal_with_fuel(ast::language_with, 8);
    let all = ast::languages();
    lemma_three(extension, "ts"@, "mts"@, "cts"@);
    lemma_one(extension, "tsx"@);
    lemma_four(extension, "js"@, "mjs"@, "cjs"@, "jsx"@);
    lemma_one(extension, "java"@);
    lemma_one(extension, "rs"@);
    lemma_two(extension, "py"@, "pyi"@);
}

proof fn lemma_one(x: Seq<char>, a: Seq<char>)
    ensures
        seq![a].contains(x) == (x == a),
{
    assert(seq![a][0] == a);
}

proof fn lemma_two(x: Seq<char>, a: Seq<char>, b: Seq<char>)
    ensures
        seq![a, b].contains(x) == (x == a || x == b),
{
    assert(seq![a, b][0] == a && seq![a, b][1] == b);
}

proof fn lemma_three(x: Seq<char>, a: Seq<char>, b: Seq<char>, c: Seq<char>)
    ensures
        seq![a, b, c].contains(x) == (x == a || x == b || x == c),
{
    assert(seq![a, b, c][0] == a && seq![a, b, c][1] == b && seq![a, b, c][2] == c);
}

proof fn lemma_four(x: Seq<char>, a: Seq<char>, b: Seq<char>, c: Seq<char>, d: Seq<char>)
    ensures
        seq![a, b, c, d].contains(x) == (x == a || x == b || x == c || x == d),
{
    let s = seq![a, b, c, d];
    assert(s[0] == a && s[1] == b && s[2] == c && s[3] == d);
}

/// Every language is parsed with the grammar of its own name, TypeScript with JSX by one of its own.
pub proof fn law_grammars()
    ensures
        grammar::grammar_name(typescript::typescript_model().grammar) == "typescript"@,
        grammar::grammar_name(typescript::tsx_model().grammar) == "tsx"@,
        grammar::grammar_name(javascript::javascript_model().grammar) == "javascript"@,
        grammar::grammar_name(java::java_model().grammar) == "java"@,
        grammar::grammar_name(rust::rust_model().grammar) == "rust"@,
        grammar::grammar_name(python::python_model().grammar) == "python"@,
{
}

} // verus!
