//! How each grammar family names its symbol definitions, which nodes are transparent
//! containers that a path looks through, and where a definition's body (its scope) is.

use vstd::prelude::*;
use crate::lang::Family;
use crate::syntax::{Ast, SyntaxNode, child_by_field, field_text, child_by_field_exec, field_text_exec, opt_text, opt_tree, has_field};
use crate::text::{first_where, lemma_first_where};
use crate::text::text_is;

verus! {

pub open spec fn is_rust_named_def(k: Seq<char>) -> bool {
    k == "function_item"@ || k == "struct_item"@ || k == "enum_item"@ || k == "union_item"@
        || k == "trait_item"@ || k == "mod_item"@ || k == "type_item"@ || k == "const_item"@
        || k == "static_item"@ || k == "macro_definition"@
}

pub open spec fn is_ts_named_def(k: Seq<char>) -> bool {
    k == "function_declaration"@ || k == "generator_function_declaration"@ || k == "function_signature"@
        || k == "class_declaration"@ || k == "abstract_class_declaration"@ || k == "interface_declaration"@
        || k == "enum_declaration"@ || k == "type_alias_declaration"@ || k == "method_definition"@
        || k == "method_signature"@ || k == "abstract_method_signature"@
}

/// Initializers that make a `const x = ...` declarator a function-like definition.
pub open spec fn is_ts_function_value(k: Seq<char>) -> bool {
    k == "arrow_function"@ || k == "function"@ || k == "function_expression"@ || k == "generator_function"@
        || k == "call_expression"@
}

pub open spec fn is_go_named_def(k: Seq<char>) -> bool {
    k == "function_declaration"@ || k == "method_declaration"@ || k == "type_spec"@ || k == "const_spec"@
        || k == "var_spec"@
}

pub open spec fn rust_def_name(t: Ast) -> Option<Seq<char>> {
    if is_rust_named_def(t.kind) {
        field_text(t, "name"@)
    } else if t.kind == "impl_item"@ {
        field_text(t, "type"@)
    } else {
        None
    }
}

/// In Rust every named item is a definition known by its `name` field: functions, structs,
/// enums, unions, traits, modules, type aliases, constants, statics and macros.
pub proof fn lemma_rust_items_are_defs(t: Ast)
    requires
        t.kind == "function_item"@ || t.kind == "struct_item"@ || t.kind == "enum_item"@ || t.kind == "union_item"@
            || t.kind == "trait_item"@ || t.kind == "mod_item"@ || t.kind == "type_item"@ || t.kind == "const_item"@
            || t.kind == "static_item"@ || t.kind == "macro_definition"@,
    ensures
        def_name(t, Family::Rust) == field_text(t, "name"@),
{
}

pub open spec fn ts_def_name(t: Ast) -> Option<Seq<char>> {
    if is_ts_named_def(t.kind) {
        field_text(t, "name"@)
    } else if t.kind == "variable_declarator"@ {
        match child_by_field(t, "value"@) {
            Some(v) => if is_ts_function_value(v.kind) {
                field_text(t, "name"@)
            } else {
                None
            },
            None => None,
        }
    } else {
        None
    }
}

/// Python definitions: functions, classes, bindings of a bare name (`X = ...`, `X: T`), and
/// `type X = ...` aliases.
pub open spec fn python_def_name(t: Ast) -> Option<Seq<char>> {
    if t.kind == "function_definition"@ || t.kind == "class_definition"@ {
        field_text(t, "name"@)
    } else if t.kind == "assignment"@ {
        match child_by_field(t, "left"@) {
            Some(l) => if l.kind == "identifier"@ {
                l.text
            } else {
                None
            },
            None => None,
        }
    } else if t.kind == "type_alias_statement"@ {
        match child_by_field(t, "left"@) {
            Some(l) => l.text,
            None => None,
        }
    } else {
        None
    }
}

pub open spec fn go_def_name(t: Ast) -> Option<Seq<char>> {
    if is_go_named_def(t.kind) {
        field_text(t, "name"@)
    } else {
        None
    }
}

/// The name a node defines, if it is a symbol definition.
pub open spec fn def_name(t: Ast, family: Family) -> Option<Seq<char>> {
    match family {
        Family::Rust => rust_def_name(t),
        Family::TypeScript => ts_def_name(t),
        Family::Python => python_def_name(t),
        Family::Go => go_def_name(t),
    }
}

/// Containers that a path looks through without naming them.
pub open spec fn is_transparent(k: Seq<char>, family: Family) -> bool {
    match family {
        Family::Rust => k == "source_file"@ || k == "declaration_list"@ || k == "block"@,
        Family::TypeScript => k == "program"@ || k == "statement_block"@ || k == "class_body"@
            || k == "export_statement"@ || k == "lexical_declaration"@ || k == "variable_declaration"@,
        Family::Python => k == "module"@ || k == "block"@ || k == "decorated_definition"@
            || k == "expression_statement"@ || k == "if_statement"@ || k == "elif_clause"@
            || k == "else_clause"@ || k == "try_statement"@ || k == "except_clause"@
            || k == "finally_clause"@,
        Family::Go => k == "source_file"@ || k == "block"@ || k == "type_declaration"@
            || k == "const_declaration"@ || k == "var_declaration"@,
    }
}

/// Where a definition's nested symbols live: a declarator's value in TypeScript, otherwise
/// the `body` field, or the node itself when it has none.
pub open spec fn scope_of(t: Ast, family: Family) -> Ast {
    if family == Family::TypeScript && t.kind == "variable_declarator"@ {
        match child_by_field(t, "value"@) {
            Some(v) => v,
            None => t,
        }
    } else {
        match child_by_field(t, "body"@) {
            Some(b) => b,
            None => t,
        }
    }
}

fn rust_named_def(k: &String) -> (b: bool)
    ensures
        b == is_rust_named_def(k@),
{
    text_is(k, "function_item") || text_is(k, "struct_item") || text_is(k, "enum_item") || text_is(k, "union_item") || text_is(
        k,
        "trait_item",
    ) || text_is(k, "mod_item") || text_is(k, "type_item") || text_is(k, "const_item") || text_is(k, "static_item") || text_is(
        k,
        "macro_definition",
    )
}

fn ts_named_def(k: &String) -> (b: bool)
    ensures
        b == is_ts_named_def(k@),
{
    text_is(k, "function_declaration") || text_is(k, "generator_function_declaration") || text_is(k, "function_signature")
        || text_is(k, "class_declaration") || text_is(k, "abstract_class_declaration") || text_is(k, "interface_declaration")
        || text_is(k, "enum_declaration") || text_is(k, "type_alias_declaration") || text_is(k, "method_definition")
        || text_is(k, "method_signature") || text_is(k, "abstract_method_signature")
}

fn ts_function_value(k: &String) -> (b: bool)
    ensures
        b == is_ts_function_value(k@),
{
    text_is(k, "arrow_function") || text_is(k, "function") || text_is(k, "function_expression") || text_is(k, "generator_function")
        || text_is(k, "call_expression")
}

fn go_named_def(k: &String) -> (b: bool)
    ensures
        b == is_go_named_def(k@),
{
    text_is(k, "function_declaration") || text_is(k, "method_declaration") || text_is(k, "type_spec") || text_is(k, "const_spec")
        || text_is(k, "var_spec")
}

pub fn transparent(k: &String, family: Family) -> (b: bool)
    ensures
        b == is_transparent(k@, family),
{
    match family {
        Family::Rust => text_is(k, "source_file") || text_is(k, "declaration_list") || text_is(k, "block"),
        Family::TypeScript => text_is(k, "program") || text_is(k, "statement_block") || text_is(k, "class_body") || text_is(
            k,
            "export_statement",
        ) || text_is(k, "lexical_declaration") || text_is(k, "variable_declaration"),
        Family::Python => text_is(k, "module") || text_is(k, "block") || text_is(k, "decorated_definition") || text_is(
            k,
            "expression_statement",
        ) || text_is(k, "if_statement") || text_is(k, "elif_clause") || text_is(k, "else_clause") || text_is(
            k,
            "try_statement",
        ) || text_is(k, "except_clause") || text_is(k, "finally_clause"),
        Family::Go => text_is(k, "source_file") || text_is(k, "block") || text_is(k, "type_declaration") || text_is(
            k,
            "const_declaration",
        ) || text_is(k, "var_declaration"),
    }
}

pub fn python_def_name_exec<'a>(n: &'a SyntaxNode) -> (r: Option<&'a String>)
    ensures
        opt_text(r) == python_def_name(n@),
{
    if text_is(&n.kind, "function_definition") || text_is(&n.kind, "class_definition") {
        field_text_exec(n, "name")
    } else if text_is(&n.kind, "assignment") {
        match child_by_field_exec(n, "left") {
            Some(l) => if text_is(&l.kind, "identifier") {
                l.text.as_ref()
            } else {
                None
            },
            None => None,
        }
    } else if text_is(&n.kind, "type_alias_statement") {
        match child_by_field_exec(n, "left") {
            Some(l) => l.text.as_ref(),
            None => None,
        }
    } else {
        None
    }
}

pub fn def_name_exec<'a>(n: &'a SyntaxNode, family: Family) -> (r: Option<&'a String>)
    ensures
        opt_text(r) == def_name(n@, family),
{
    match family {
        Family::Rust => {
            if rust_named_def(&n.kind) {
                field_text_exec(n, "name")
            } else if text_is(&n.kind, "impl_item") {
                field_text_exec(n, "type")
            } else {
                None
            }
        },
        Family::TypeScript => {
            if ts_named_def(&n.kind) {
                field_text_exec(n, "name")
            } else if text_is(&n.kind, "variable_declarator") {
                match child_by_field_exec(n, "value") {
                    Some(v) => if ts_function_value(&v.kind) {
                        field_text_exec(n, "name")
                    } else {
                        None
                    },
                    None => None,
                }
            } else {
                None
            }
        },
        Family::Python => python_def_name_exec(n),
        Family::Go => {
            if go_named_def(&n.kind) {
                field_text_exec(n, "name")
            } else {
                None
            }
        },
    }
}

pub fn scope_of_exec<'a>(n: &'a SyntaxNode, family: Family) -> (r: &'a SyntaxNode)
    ensures
        r@ == scope_of(n@, family),
{
    if family == Family::TypeScript && text_is(&n.kind, "variable_declarator") {
        match child_by_field_exec(n, "value") {
            Some(v) => v,
            None => n,
        }
    } else {
        match child_by_field_exec(n, "body") {
            Some(b) => b,
            None => n,
        }
    }
}


/// The position among `t`'s children of the scope that `scope_of` picks.
pub open spec fn scope_index(t: Ast, family: Family) -> Option<int> {
    if family == Family::TypeScript && t.kind == "variable_declarator"@ {
        first_where(t.children, has_field("value"@))
    } else {
        first_where(t.children, has_field("body"@))
    }
}

pub proof fn lemma_scope_index(t: Ast, family: Family)
    ensures
        scope_index(t, family) matches Some(i) ==> 0 <= i < t.children.len(),
        scope_of(t, family) == (match scope_index(t, family) {
            Some(i) => t.children[i],
            None => t,
        }),
{
    crate::syntax::lemma_first_where_bounds(t.children, has_field("value"@));
    crate::syntax::lemma_first_where_bounds(t.children, has_field("body"@));
}

pub fn scope_index_exec(n: &SyntaxNode, family: Family) -> (r: Option<usize>)
    ensures
        match r {
            Some(i) => scope_index(n@, family) == Some(i as int) && i < n.children@.len(),
            None => scope_index(n@, family) is None,
        },
{
    let f = if family == Family::TypeScript && text_is(&n.kind, "variable_declarator") {
        "value"
    } else {
        "body"
    };
    proof {
        reveal_strlit("value");
        reveal_strlit("body");
        assert(scope_index(n@, family) == first_where(n@.children, has_field(f@)));
    }
    let mut i: usize = 0;
    while i < n.children.len()
        invariant
            i <= n.children@.len(),
            n@.children.len() == n.children@.len(),
            scope_index(n@, family) == first_where(n@.children, has_field(f@)),
            forall|k: int| 0 <= k < i ==> !has_field(f@)(#[trigger] n@.children[k]),
        decreases n.children@.len() - i,
    {
        let c = &n.children[i];
        proof {
            assert(n@.children[i as int] == c@);
        }
        let hit = match &c.field {
            Some(name) => text_is(name, f),
            None => false,
        };
        if hit {
            proof {
                lemma_first_where(n@.children, has_field(f@), i as int);
            }
            return Some(i);
        }
        i += 1;
    }
    proof {
        lemma_first_where(n@.children, has_field(f@), i as int);
    }
    None
}

} // verus!
