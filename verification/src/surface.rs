//! A file's public surface: the symbols an author would be nudged to document. Rust: every
//! top-level `pub fn` (restricted visibility excluded). TypeScript/JavaScript: exported
//! functions, including `export const f = () => ...`. Python: top-level functions whose
//! name does not start with `_`, and the public methods of public classes. Go: exported
//! functions, and exported methods of exported types. `Surface::All` adds, for Python,
//! public classes, module- and class-level bindings and type aliases.

use vstd::prelude::*;
use crate::lang::{Family, Lang};
use crate::names::{python_def_name, ts_def_name, python_def_name_exec, def_name_exec};
use crate::order::{path_view, paths_view, sorted_paths, insert_sorted, text_lt};
use crate::resolve::{go_receiver_type, go_receiver_type_exec};
use crate::syntax::{Ast, SyntaxNode, parsed, parse_tree, field_text, field_text_exec, has_field, opt_text};
use crate::text::{text_is, trim, first_where, lemma_first_where, chars_of, trim_range, ranges_equal};

verus! {

broadcast use vstd::std_specs::vec::group_vec_axioms, vstd::seq::group_seq_axioms;

/// Which slice of a file's public surface `public_symbols` lists.
#[derive(Debug, Clone, Copy, PartialEq, Eq, Structural)]
pub enum Surface {
    /// Behaviour-bearing symbols: functions and methods.
    Callables,
    /// Everything anchorable: additionally Python classes, bindings and type aliases.
    All,
}

/// Unicode uppercase (`char::is_uppercase`).
pub uninterp spec fn is_upper(c: char) -> bool;

/// `char::is_uppercase`: whether `c` has the Unicode `Uppercase` property. Within ASCII that
/// is exactly `A`..`Z`; beyond ASCII the property table is left to std.
#[verifier::external_body]
fn char_is_uppercase(c: char) -> (b: bool)
    ensures
        b == is_upper(c),
        (c as u32) < 128 ==> (b <==> 65 <= (c as u32) <= 90),
{
    c.is_uppercase()
}

pub open spec fn starts_upper(s: Seq<char>) -> bool {
    s.len() > 0 && is_upper(s[0])
}

pub open spec fn starts_underscore(s: Seq<char>) -> bool {
    s.len() > 0 && s[0] == '_'
}

pub open spec fn is_pub_modifier(c: Ast) -> bool {
    c.kind == "visibility_modifier"@ && match c.text {
        Some(t) => trim(t) == "pub"@,
        None => false,
    }
}

/// Unrestricted `pub`: `pub(crate)`, `pub(super)` and `pub(in ...)` do not count.
pub open spec fn is_rust_pub(t: Ast) -> bool {
    exists|i: int| 0 <= i < t.children.len() && is_pub_modifier(#[trigger] t.children[i])
}

pub open spec fn one(n: Seq<char>) -> Seq<Seq<Seq<char>>> {
    seq![seq![n]]
}

pub open spec fn rust_paths(c: Ast) -> Seq<Seq<Seq<char>>> {
    if c.kind == "function_item"@ && is_rust_pub(c) {
        match field_text(c, "name"@) {
            Some(n) => one(n),
            None => Seq::empty(),
        }
    } else {
        Seq::empty()
    }
}

pub open spec fn ts_declarator_paths(cs: Seq<Ast>, k: int) -> Seq<Seq<Seq<char>>>
    decreases k,
{
    if k <= 0 || k > cs.len() {
        Seq::empty()
    } else {
        ts_declarator_paths(cs, k - 1) + (if cs[k - 1].named {
            match ts_def_name(cs[k - 1]) {
                Some(n) => one(n),
                None => Seq::empty(),
            }
        } else {
            Seq::empty()
        })
    }
}

/// The exported functions one child of an `export` statement declares.
pub open spec fn ts_export_paths(d: Ast) -> Seq<Seq<Seq<char>>> {
    if d.kind == "function_declaration"@ || d.kind == "generator_function_declaration"@ || d.kind
        == "function_signature"@ {
        match field_text(d, "name"@) {
            Some(n) => one(n),
            None => Seq::empty(),
        }
    } else if d.kind == "lexical_declaration"@ || d.kind == "variable_declaration"@ {
        ts_declarator_paths(d.children, d.children.len() as int)
    } else {
        Seq::empty()
    }
}

pub open spec fn ts_export_prefix(cs: Seq<Ast>, k: int) -> Seq<Seq<Seq<char>>>
    decreases k,
{
    if k <= 0 || k > cs.len() {
        Seq::empty()
    } else {
        ts_export_prefix(cs, k - 1) + (if cs[k - 1].named {
            ts_export_paths(cs[k - 1])
        } else {
            Seq::empty()
        })
    }
}

pub open spec fn ts_paths(c: Ast) -> Seq<Seq<Seq<char>>> {
    if c.kind == "export_statement"@ {
        ts_export_prefix(c.children, c.children.len() as int)
    } else {
        Seq::empty()
    }
}

pub open spec fn go_fn_paths(c: Ast) -> Seq<Seq<Seq<char>>> {
    if c.kind == "function_declaration"@ {
        match field_text(c, "name"@) {
            Some(n) => if starts_upper(n) {
                one(n)
            } else {
                Seq::empty()
            },
            None => Seq::empty(),
        }
    } else {
        Seq::empty()
    }
}

/// Go functions, and methods as `[Type, Method]` when both are exported.
pub open spec fn go_symbol_paths(c: Ast) -> Seq<Seq<Seq<char>>> {
    if c.kind == "method_declaration"@ {
        match (field_text(c, "name"@), go_receiver_type(c)) {
            (Some(n), Some(ty)) => if starts_upper(n) && starts_upper(ty) {
                seq![seq![ty, n]]
            } else {
                Seq::empty()
            },
            _ => Seq::empty(),
        }
    } else {
        go_fn_paths(c)
    }
}

/// Python top-level functions (through decorators).
pub open spec fn py_fn_paths(t: Ast) -> Seq<Seq<Seq<char>>>
    decreases t, 0int,
{
    if t.kind == "function_definition"@ {
        match python_def_name(t) {
            Some(n) => if starts_underscore(n) {
                Seq::empty()
            } else {
                one(n)
            },
            None => Seq::empty(),
        }
    } else if t.kind == "decorated_definition"@ {
        py_fn_prefix(t.children, t.children.len() as int)
    } else {
        Seq::empty()
    }
}

pub open spec fn py_fn_prefix(cs: Seq<Ast>, k: int) -> Seq<Seq<Seq<char>>>
    decreases cs, k,
{
    if k <= 0 || k > cs.len() {
        Seq::empty()
    } else {
        py_fn_prefix(cs, k - 1) + (if cs[k - 1].named {
            py_fn_paths(cs[k - 1])
        } else {
            Seq::empty()
        })
    }
}

pub open spec fn class_path(class: Option<Seq<char>>, n: Seq<char>) -> Seq<Seq<Seq<char>>> {
    if starts_underscore(n) {
        Seq::empty()
    } else {
        match class {
            Some(c) => seq![seq![c, n]],
            None => one(n),
        }
    }
}

/// Python symbols below `t`; `class` is the enclosing class when inside its body.
pub open spec fn py_symbol_paths(t: Ast, class: Option<Seq<char>>, all: bool) -> Seq<Seq<Seq<char>>>
    decreases t, 0int,
{
    if t.kind == "function_definition"@ {
        match python_def_name(t) {
            Some(n) => class_path(class, n),
            None => Seq::empty(),
        }
    } else if t.kind == "class_definition"@ && class is None {
        match python_def_name(t) {
            None => Seq::empty(),
            Some(n) => if starts_underscore(n) {
                Seq::empty()
            } else {
                (if all {
                    one(n)
                } else {
                    Seq::empty()
                }) + match first_where(t.children, has_field("body"@)) {
                    Some(i) => if 0 <= i < t.children.len() {
                        py_symbol_prefix(t.children[i].children, Some(n), all, t.children[i].children.len() as int)
                    } else {
                        Seq::empty()
                    },
                    None => Seq::empty(),
                }
            },
        }
    } else if (t.kind == "assignment"@ || t.kind == "type_alias_statement"@) && all {
        match python_def_name(t) {
            Some(n) => class_path(class, n),
            None => Seq::empty(),
        }
    } else if t.kind == "decorated_definition"@ || t.kind == "expression_statement"@ {
        py_symbol_prefix(t.children, class, all, t.children.len() as int)
    } else {
        Seq::empty()
    }
}

pub open spec fn py_symbol_prefix(cs: Seq<Ast>, class: Option<Seq<char>>, all: bool, k: int) -> Seq<Seq<Seq<char>>>
    decreases cs, k,
{
    if k <= 0 || k > cs.len() {
        Seq::empty()
    } else {
        py_symbol_prefix(cs, class, all, k - 1) + (if cs[k - 1].named {
            py_symbol_paths(cs[k - 1], class, all)
        } else {
            Seq::empty()
        })
    }
}

/// The candidates one top-level node contributes.
pub open spec fn top_paths(c: Ast, family: Family, symbols: bool, all: bool) -> Seq<Seq<Seq<char>>> {
    match family {
        Family::Rust => rust_paths(c),
        Family::TypeScript => ts_paths(c),
        Family::Python => if symbols {
            py_symbol_paths(c, None, all)
        } else {
            py_fn_paths(c)
        },
        Family::Go => if symbols {
            go_symbol_paths(c)
        } else {
            go_fn_paths(c)
        },
    }
}

pub open spec fn top_prefix(cs: Seq<Ast>, family: Family, symbols: bool, all: bool, k: int) -> Seq<Seq<Seq<char>>>
    decreases k,
{
    if k <= 0 || k > cs.len() {
        Seq::empty()
    } else {
        top_prefix(cs, family, symbols, all, k - 1) + (if cs[k - 1].named {
            top_paths(cs[k - 1], family, symbols, all)
        } else {
            Seq::empty()
        })
    }
}

/// Every candidate of a tree, in document order, duplicates included.
pub open spec fn surface_paths(root: Ast, family: Family, symbols: bool, all: bool) -> Seq<Seq<Seq<char>>> {
    top_prefix(root.children, family, symbols, all, root.children.len() as int)
}


proof fn lemma_paths_push(v: Seq<Vec<String>>, p: Vec<String>)
    ensures
        paths_view(v.push(p)) =~= paths_view(v).push(path_view(p@)),
{
}

fn single(n: &String) -> (p: Vec<String>)
    ensures
        path_view(p@) =~= seq![n@],
{
    let mut p: Vec<String> = Vec::new();
    p.push(n.clone());
    p
}

fn pair(a: &String, b: &String) -> (p: Vec<String>)
    ensures
        path_view(p@) =~= seq![a@, b@],
{
    let mut p: Vec<String> = Vec::new();
    p.push(a.clone());
    p.push(b.clone());
    p
}

fn starts_upper_exec(s: &String) -> (b: bool)
    ensures
        b == starts_upper(s@),
{
    let v = chars_of(s.as_str());
    v.len() > 0 && char_is_uppercase(v[0])
}

fn starts_underscore_exec(s: &String) -> (b: bool)
    ensures
        b == starts_underscore(s@),
{
    let v = chars_of(s.as_str());
    v.len() > 0 && v[0] == '_'
}

fn rust_pub_exec(t: &SyntaxNode) -> (b: bool)
    ensures
        b == is_rust_pub(t@),
{
    let mut i: usize = 0;
    while i < t.children.len()
        invariant
            i <= t.children@.len(),
            t@.children.len() == t.children@.len(),
            forall|k: int| 0 <= k < i ==> !is_pub_modifier(#[trigger] t@.children[k]),
        decreases t.children@.len() - i,
    {
        let c = &t.children[i];
        proof {
            assert(t@.children[i as int] == c@);
        }
        if text_is(&c.kind, "visibility_modifier") {
            match &c.text {
                Some(txt) => {
                    let v = chars_of(txt.as_str());
                    let (a, b) = trim_range(&v, 0, v.len());
                    let w = chars_of("pub");
                    proof {
                        assert(v@.subrange(0, v@.len() as int) =~= txt@);
                        assert(w@.subrange(0, w@.len() as int) =~= w@);
                    }
                    if ranges_equal(&v, a, b, &w, 0, w.len()) {
                        proof {
                            assert(is_pub_modifier(t@.children[i as int]));
                        }
                        return true;
                    }
                },
                None => {},
            }
        }
        i += 1;
    }
    false
}

/// Appends what `top_paths` gives for a Rust node.
fn rust_collect(c: &SyntaxNode, out: &mut Vec<Vec<String>>)
    ensures
        paths_view(final(out)@) =~= paths_view(old(out)@) + rust_paths(c@),
{
    if text_is(&c.kind, "function_item") && rust_pub_exec(c) {
        match field_text_exec(c, "name") {
            Some(n) => {
                let p = single(n);
                proof {
                    lemma_paths_push(out@, p);
                }
                out.push(p);
            },
            None => {},
        }
    }
}

fn ts_export_collect(d: &SyntaxNode, out: &mut Vec<Vec<String>>)
    ensures
        paths_view(final(out)@) =~= paths_view(old(out)@) + ts_export_paths(d@),
{
    if text_is(&d.kind, "function_declaration") || text_is(&d.kind, "generator_function_declaration") || text_is(
        &d.kind,
        "function_signature",
    ) {
        match field_text_exec(d, "name") {
            Some(n) => {
                let p = single(n);
                proof {
                    lemma_paths_push(out@, p);
                }
                out.push(p);
            },
            None => {},
        }
    } else if text_is(&d.kind, "lexical_declaration") || text_is(&d.kind, "variable_declaration") {
        let ghost start = paths_view(out@);
        let mut i: usize = 0;
        while i < d.children.len()
            invariant
                i <= d.children@.len(),
                d@.children.len() == d.children@.len(),
                d@.kind == "lexical_declaration"@ || d@.kind == "variable_declaration"@,
                paths_view(out@) =~= start + ts_declarator_paths(d@.children, i as int),
            decreases d.children@.len() - i,
        {
            let e = &d.children[i];
            proof {
                assert(d@.children[i as int] == e@);
            }
            if e.named {
                match def_name_exec(e, Family::TypeScript) {
                    Some(n) => {
                        let p = single(n);
                        proof {
                            lemma_paths_push(out@, p);
                        }
                        out.push(p);
                    },
                    None => {},
                }
            }
            i += 1;
        }
    }
}

fn ts_collect(c: &SyntaxNode, out: &mut Vec<Vec<String>>)
    ensures
        paths_view(final(out)@) =~= paths_view(old(out)@) + ts_paths(c@),
{
    if text_is(&c.kind, "export_statement") {
        let ghost start = paths_view(out@);
        let mut i: usize = 0;
        while i < c.children.len()
            invariant
                i <= c.children@.len(),
                c@.children.len() == c.children@.len(),
                c@.kind == "export_statement"@,
                paths_view(out@) =~= start + ts_export_prefix(c@.children, i as int),
            decreases c.children@.len() - i,
        {
            let d = &c.children[i];
            proof {
                assert(c@.children[i as int] == d@);
            }
            if d.named {
                ts_export_collect(d, out);
            }
            i += 1;
        }
    }
}

fn go_fn_collect(c: &SyntaxNode, out: &mut Vec<Vec<String>>)
    ensures
        paths_view(final(out)@) =~= paths_view(old(out)@) + go_fn_paths(c@),
{
    if text_is(&c.kind, "function_declaration") {
        match field_text_exec(c, "name") {
            Some(n) => {
                if starts_upper_exec(n) {
                    let p = single(n);
                    proof {
                        lemma_paths_push(out@, p);
                    }
                    out.push(p);
                }
            },
            None => {},
        }
    }
}

fn go_symbol_collect(c: &SyntaxNode, out: &mut Vec<Vec<String>>)
    ensures
        paths_view(final(out)@) =~= paths_view(old(out)@) + go_symbol_paths(c@),
{
    if text_is(&c.kind, "method_declaration") {
        match (field_text_exec(c, "name"), go_receiver_type_exec(c)) {
            (Some(n), Some(ty)) => {
                if starts_upper_exec(n) && starts_upper_exec(ty) {
                    let p = pair(ty, n);
                    proof {
                        lemma_paths_push(out@, p);
                    }
                    out.push(p);
                }
            },
            _ => {},
        }
    } else {
        go_fn_collect(c, out);
    }
}

fn py_fn_collect(t: &SyntaxNode, out: &mut Vec<Vec<String>>)
    ensures
        paths_view(final(out)@) =~= paths_view(old(out)@) + py_fn_paths(t@),
    decreases t,
{
    if text_is(&t.kind, "function_definition") {
        match python_def_name_exec(t) {
            Some(n) => {
                if !starts_underscore_exec(n) {
                    let p = single(n);
                    proof {
                        lemma_paths_push(out@, p);
                    }
                    out.push(p);
                }
            },
            None => {},
        }
    } else if text_is(&t.kind, "decorated_definition") {
        let ghost start = paths_view(out@);
        let mut i: usize = 0;
        while i < t.children.len()
            invariant
                i <= t.children@.len(),
                t@.children.len() == t.children@.len(),
                paths_view(out@) =~= start + py_fn_prefix(t@.children, i as int),
            decreases t.children@.len() - i,
        {
            let c = &t.children[i];
            proof {
                assert(t@.children[i as int] == c@);
            }
            if c.named {
                py_fn_collect(c, out);
            }
            i += 1;
        }
    }
}

pub open spec fn opt_str(o: Option<&String>) -> Option<Seq<char>> {
    match o {
        Some(s) => Some(s@),
        None => None,
    }
}

fn class_collect(class: Option<&String>, n: &String, out: &mut Vec<Vec<String>>)
    ensures
        paths_view(final(out)@) =~= paths_view(old(out)@) + class_path(opt_str(class), n@),
{
    if !starts_underscore_exec(n) {
        let p = match class {
            Some(c) => pair(c, n),
            None => single(n),
        };
        proof {
            lemma_paths_push(out@, p);
        }
        out.push(p);
    }
}

fn py_symbol_children(cs: &Vec<SyntaxNode>, class: Option<&String>, all: bool, out: &mut Vec<Vec<String>>)
    ensures
        paths_view(final(out)@) =~= paths_view(old(out)@) + py_symbol_prefix(cs@.map_values(|c: SyntaxNode| c@), opt_str(class), all, cs@.len() as int),
    decreases cs, 0int,
{
    let ghost start = paths_view(out@);
    let ghost tv = cs@.map_values(|c: SyntaxNode| c@);
    let mut i: usize = 0;
    while i < cs.len()
        invariant
            i <= cs@.len(),
            tv == cs@.map_values(|c: SyntaxNode| c@),
            paths_view(out@) =~= start + py_symbol_prefix(tv, opt_str(class), all, i as int),
        decreases cs@.len() - i,
    {
        let c = &cs[i];
        if c.named {
            py_symbol_collect(c, class, all, out);
        }
        i += 1;
    }
}

fn py_symbol_collect(t: &SyntaxNode, class: Option<&String>, all: bool, out: &mut Vec<Vec<String>>)
    ensures
        paths_view(final(out)@) =~= paths_view(old(out)@) + py_symbol_paths(t@, opt_str(class), all),
    decreases t, 1int,
{
    if text_is(&t.kind, "function_definition") {
        match python_def_name_exec(t) {
            Some(n) => class_collect(class, n, out),
            None => {},
        }
    } else if text_is(&t.kind, "class_definition") && class.is_none() {
        match python_def_name_exec(t) {
            None => {},
            Some(n) => {
                if !starts_underscore_exec(n) {
                    let ghost start = paths_view(out@);
                    if all {
                        let p = single(n);
                        proof {
                            lemma_paths_push(out@, p);
                        }
                        out.push(p);
                    }
                    let ghost mid = paths_view(out@);
                    let mut i: usize = 0;
                    let mut found = false;
                    while i < t.children.len() && !found
                        invariant
                            i <= t.children@.len(),
                            t@.children.len() == t.children@.len(),
                            !found ==> forall|k: int| 0 <= k < i ==> !has_field("body"@)(#[trigger] t@.children[k]),
                            found ==> i >= 1 && first_where(t@.children, has_field("body"@)) == Some(i - 1) && paths_view(out@) =~= mid + py_symbol_prefix(t@.children[i - 1].children, Some(n@), all, t@.children[i - 1].children.len() as int),
                            !found ==> paths_view(out@) == mid,
                        decreases t.children@.len() - i,
                    {
                        let c = &t.children[i];
                        proof {
                            assert(t@.children[i as int] == c@);
                        }
                        let is_body = match &c.field {
                            Some(f) => text_is(f, "body"),
                            None => false,
                        };
                        if is_body {
                            proof {
                                lemma_first_where(t@.children, has_field("body"@), i as int);
                                assert(c.children@.map_values(|x: SyntaxNode| x@) =~= c@.children);
                            }
                            py_symbol_children(&c.children, Some(n), all, out);
                            found = true;
                        }
                        i += 1;
                    }
                    proof {
                        if !found {
                            lemma_first_where(t@.children, has_field("body"@), i as int);
                        }
                    }
                }
            },
        }
    } else if (text_is(&t.kind, "assignment") || text_is(&t.kind, "type_alias_statement")) && all {
        match python_def_name_exec(t) {
            Some(n) => class_collect(class, n, out),
            None => {},
        }
    } else if text_is(&t.kind, "decorated_definition") || text_is(&t.kind, "expression_statement") {
        proof {
            assert(t.children@.map_values(|x: SyntaxNode| x@) =~= t@.children);
        }
        py_symbol_children(&t.children, class, all, out);
    }
}

/// Appends the candidates of the root's children.
fn collect_surface(root: &SyntaxNode, family: Family, symbols: bool, all: bool) -> (out: Vec<Vec<String>>)
    ensures
        paths_view(out@) =~= surface_paths(root@, family, symbols, all),
{
    let mut out: Vec<Vec<String>> = Vec::new();
    let mut i: usize = 0;
    while i < root.children.len()
        invariant
            i <= root.children@.len(),
            root@.children.len() == root.children@.len(),
            paths_view(out@) =~= top_prefix(root@.children, family, symbols, all, i as int),
        decreases root.children@.len() - i,
    {
        let c = &root.children[i];
        proof {
            assert(root@.children[i as int] == c@);
        }
        if c.named {
            match family {
                Family::Rust => rust_collect(c, &mut out),
                Family::TypeScript => ts_collect(c, &mut out),
                Family::Python => {
                    if symbols {
                        py_symbol_collect(c, None, all, &mut out);
                    } else {
                        py_fn_collect(c, &mut out);
                    }
                },
                Family::Go => {
                    if symbols {
                        go_symbol_collect(c, &mut out);
                    } else {
                        go_fn_collect(c, &mut out);
                    }
                },
            }
        }
        i += 1;
    }
    out
}

/// Sorted and free of duplicates.
fn sort_dedup(v: Vec<Vec<String>>) -> (r: Vec<Vec<String>>)
    ensures
        sorted_paths(paths_view(r@)),
        paths_view(r@).to_set() == paths_view(v@).to_set(),
{
    let mut r: Vec<Vec<String>> = Vec::new();
    let mut v = v;
    let ghost v0 = paths_view(v@);
    let mut taken: Vec<Vec<String>> = Vec::new();
    proof {
        assert(paths_view(r@).to_set() =~= v0.take(0).to_set());
    }
    let n = v.len();
    let mut i: usize = 0;
    let mut rest = v;
    proof {
        assert(paths_view(rest@) =~= v0.skip(0));
    }
    while i < n
        invariant
            i <= n,
            n == v0.len(),
            rest@.len() == n - i,
            paths_view(rest@) =~= v0.skip(i as int),
            sorted_paths(paths_view(r@)),
            paths_view(r@).to_set() =~= v0.take(i as int).to_set(),
        decreases n - i,
    {
        let ghost before = rest@;
        let x = rest.remove(0);
        proof {
            assert(paths_view(before)[0] == path_view(x@));
            assert(v0.skip(i as int)[0] == v0[i as int]);
            assert(path_view(x@) == v0[i as int]);
            assert(paths_view(rest@) =~= paths_view(before).drop_first());
            assert(v0.skip(i as int).drop_first() =~= v0.skip(i + 1));
            assert(v0.take(i + 1) =~= v0.take(i as int).push(v0[i as int]));
            v0.take(i as int).lemma_push_to_set_commute(v0[i as int]);
        }
        insert_sorted(&mut r, x);
        i += 1;
    }
    proof {
        assert(v0.take(i as int) =~= v0);
    }
    r
}

pub open spec fn all_single(s: Seq<Seq<Seq<char>>>) -> bool {
    forall|i: int| 0 <= i < s.len() ==> (#[trigger] s[i]).len() == 1
}

proof fn lemma_all_single_concat(a: Seq<Seq<Seq<char>>>, b: Seq<Seq<Seq<char>>>)
    requires
        all_single(a),
        all_single(b),
    ensures
        all_single(a + b),
{
    assert forall|i: int| 0 <= i < (a + b).len() implies (#[trigger] (a + b)[i]).len() == 1 by {
        if i >= a.len() {
            assert((a + b)[i] == b[i - a.len()]);
        }
    }
}

proof fn lemma_ts_declarators_single(cs: Seq<Ast>, k: int)
    ensures
        all_single(ts_declarator_paths(cs, k)),
    decreases k,
{
    if k > 0 && k <= cs.len() {
        lemma_ts_declarators_single(cs, k - 1);
        lemma_all_single_concat(ts_declarator_paths(cs, k - 1), if cs[k - 1].named {
            match ts_def_name(cs[k - 1]) {
                Some(n) => one(n),
                None => Seq::empty(),
            }
        } else {
            Seq::empty()
        });
    }
}

proof fn lemma_ts_exports_single(cs: Seq<Ast>, k: int)
    ensures
        all_single(ts_export_prefix(cs, k)),
    decreases k,
{
    if k > 0 && k <= cs.len() {
        lemma_ts_exports_single(cs, k - 1);
        let d = cs[k - 1];
        lemma_ts_declarators_single(d.children, d.children.len() as int);
        lemma_all_single_concat(ts_export_prefix(cs, k - 1), if d.named { ts_export_paths(d) } else { Seq::empty() });
    }
}

proof fn lemma_py_fns_single(t: Ast)
    ensures
        all_single(py_fn_paths(t)),
    decreases t, 0int,
{
    if t.kind != "function_definition"@ && t.kind == "decorated_definition"@ {
        lemma_py_fn_prefix_single(t.children, t.children.len() as int);
    }
}

proof fn lemma_py_fn_prefix_single(cs: Seq<Ast>, k: int)
    ensures
        all_single(py_fn_prefix(cs, k)),
    decreases cs, k,
{
    if k > 0 && k <= cs.len() {
        lemma_py_fn_prefix_single(cs, k - 1);
        lemma_py_fns_single(cs[k - 1]);
        lemma_all_single_concat(py_fn_prefix(cs, k - 1), if cs[k - 1].named { py_fn_paths(cs[k - 1]) } else { Seq::empty() });
    }
}

proof fn lemma_top_fns_single(cs: Seq<Ast>, family: Family, k: int)
    ensures
        all_single(top_prefix(cs, family, false, false, k)),
    decreases k,
{
    if k > 0 && k <= cs.len() {
        lemma_top_fns_single(cs, family, k - 1);
        let c = cs[k - 1];
        lemma_ts_exports_single(c.children, c.children.len() as int);
        lemma_py_fns_single(c);
        lemma_all_single_concat(top_prefix(cs, family, false, false, k - 1), if c.named {
            top_paths(c, family, false, false)
        } else {
            Seq::empty()
        });
    }
}

proof fn lemma_fn_paths_single(r: Seq<Seq<Seq<char>>>, surface: Set<Seq<Seq<char>>>)
    requires
        r.to_set() == surface,
        forall|p: Seq<Seq<char>>| surface.contains(p) ==> p.len() == 1,
    ensures
        forall|k: int| 0 <= k < r.len() ==> (#[trigger] r[k]).len() == 1,
{
    assert forall|k: int| 0 <= k < r.len() implies (#[trigger] r[k]).len() == 1 by {
        assert(r.to_set().contains(r[k]));
    }
}

pub open spec fn fn_surface(source: Seq<char>, lang: Lang) -> Set<Seq<Seq<char>>> {
    match parsed(source, lang) {
        Some(t) => surface_paths(t, lang.spec_family(), false, false).to_set(),
        None => Set::empty(),
    }
}

pub open spec fn symbol_surface(source: Seq<char>, lang: Lang, surface: Surface) -> Set<Seq<Seq<char>>> {
    match parsed(source, lang) {
        Some(t) => surface_paths(t, lang.spec_family(), true, surface == Surface::All).to_set(),
        None => Set::empty(),
    }
}

/// The public symbols of a file as anchor segment paths (`["foo"]`, `["Type", "method"]`),
/// sorted and without duplicates. Empty when the file cannot be parsed.
pub fn public_symbols(source: &str, lang: Lang, surface: Surface) -> (r: Vec<Vec<String>>)
    ensures
        sorted_paths(paths_view(r@)),
        paths_view(r@).to_set() == symbol_surface(source@, lang, surface),
{
    match parse_tree(source, lang) {
        None => {
            let r: Vec<Vec<String>> = Vec::new();
            proof {
                assert(paths_view(r@).to_set() =~= Set::<Seq<Seq<char>>>::empty());
            }
            r
        },
        Some(t) => {
            let all = match surface {
                Surface::All => true,
                Surface::Callables => false,
            };
            sort_dedup(collect_surface(&t, lang.family(), true, all))
        },
    }
}

pub open spec fn singletons(v: Seq<String>) -> Seq<Seq<Seq<char>>> {
    v.map_values(|s: String| seq![s@])
}

/// The top-level public functions of a file, sorted and without duplicates. Empty when the
/// file cannot be parsed.
pub fn public_fns(source: &str, lang: Lang) -> (r: Vec<String>)
    ensures
        sorted_paths(singletons(r@)),
        singletons(r@).to_set() == fn_surface(source@, lang),
{
    let paths = match parse_tree(source, lang) {
        None => {
            let r: Vec<Vec<String>> = Vec::new();
            proof {
                assert(paths_view(r@).to_set() =~= Set::<Seq<Seq<char>>>::empty());
            }
            r
        },
        Some(t) => sort_dedup(collect_surface(&t, lang.family(), false, false)),
    };
    proof {
        match parsed(source@, lang) {
            Some(t) => {
                let sp = surface_paths(t, lang.spec_family(), false, false);
                lemma_top_fns_single(t.children, lang.spec_family(), t.children.len() as int);
                assert forall|p: Seq<Seq<char>>| fn_surface(source@, lang).contains(p) implies p.len() == 1 by {
                    let j = choose|j: int| 0 <= j < sp.len() && sp[j] == p;
                }
            },
            None => {},
        }
        lemma_fn_paths_single(paths_view(paths@), fn_surface(source@, lang));
    }
    let mut r: Vec<String> = Vec::new();
    let mut i: usize = 0;
    while i < paths.len()
        invariant
            i <= paths@.len(),
            forall|k: int| 0 <= k < paths@.len() ==> (#[trigger] paths_view(paths@)[k]).len() == 1,
            singletons(r@) =~= paths_view(paths@).take(i as int),
        decreases paths@.len() - i,
    {
        let p = &paths[i];
        proof {
            assert(paths_view(paths@)[i as int].len() == 1);
        }
        let s = p[0].clone();
        proof {
            assert(paths_view(paths@)[i as int] =~= seq![s@]);
            assert(singletons(r@.push(s)) =~= singletons(r@).push(seq![s@]));
            assert(paths_view(paths@).take(i + 1) =~= paths_view(paths@).take(i as int).push(paths_view(paths@)[i as int]));
        }
        r.push(s);
        i += 1;
    }
    proof {
        assert(paths_view(paths@).take(i as int) =~= paths_view(paths@));
    }
    r
}

proof fn lemma_contains_concat<A>(a: Seq<A>, b: Seq<A>, x: A)
    ensures
        (a + b).contains(x) <==> (a.contains(x) || b.contains(x)),
{
    if (a + b).contains(x) {
        let i = choose|i: int| 0 <= i < (a + b).len() && (a + b)[i] == x;
        if i >= a.len() {
            assert(b[i - a.len()] == x);
        }
    }
    if a.contains(x) {
        let i = choose|i: int| 0 <= i < a.len() && a[i] == x;
        assert((a + b)[i] == x);
    }
    if b.contains(x) {
        let i = choose|i: int| 0 <= i < b.len() && b[i] == x;
        assert((a + b)[a.len() + i] == x);
    }
}

/// The callables of a Python tree are among its symbols with `all` set.
proof fn lemma_py_symbols_subset(t: Ast, class: Option<Seq<char>>, x: Seq<Seq<char>>)
    ensures
        py_symbol_paths(t, class, false).contains(x) ==> py_symbol_paths(t, class, true).contains(x),
    decreases t, 0int,
{
    if t.kind == "function_definition"@ {
    } else if t.kind == "class_definition"@ && class is None {
        match python_def_name(t) {
            None => {},
            Some(n) => if !starts_underscore(n) {
                match first_where(t.children, has_field("body"@)) {
                    Some(i) => if 0 <= i < t.children.len() {
                        let body = t.children[i].children;
                        let f = py_symbol_prefix(body, Some(n), false, body.len() as int);
                        let tr = py_symbol_prefix(body, Some(n), true, body.len() as int);
                        lemma_py_prefix_subset(body, Some(n), body.len() as int, x);
                        lemma_contains_concat(Seq::<Seq<Seq<char>>>::empty(), f, x);
                        lemma_contains_concat(one(n), tr, x);
                        assert(py_symbol_paths(t, class, false) == Seq::<Seq<Seq<char>>>::empty() + f);
                        assert(py_symbol_paths(t, class, true) == one(n) + tr);
                    } else {
                    },
                    None => {},
                }
            },
        }
    } else if t.kind == "assignment"@ || t.kind == "type_alias_statement"@ {
        reveal_strlit("assignment");
        reveal_strlit("type_alias_statement");
        reveal_strlit("decorated_definition");
        reveal_strlit("expression_statement");
        assert("assignment"@[0] == 'a');
        assert("type_alias_statement"@[0] == 't');
        assert("decorated_definition"@[0] == 'd');
        assert("expression_statement"@[0] == 'e');
        assert(t.kind != "decorated_definition"@);
        assert(t.kind != "expression_statement"@);
        assert(py_symbol_paths(t, class, false) == Seq::<Seq<Seq<char>>>::empty());
    } else if t.kind == "decorated_definition"@ || t.kind == "expression_statement"@ {
        lemma_py_prefix_subset(t.children, class, t.children.len() as int, x);
        assert(py_symbol_paths(t, class, false) == py_symbol_prefix(t.children, class, false, t.children.len() as int));
        assert(py_symbol_paths(t, class, true) == py_symbol_prefix(t.children, class, true, t.children.len() as int));
    } else {
        assert(py_symbol_paths(t, class, false) == Seq::<Seq<Seq<char>>>::empty());
    }
}

proof fn lemma_py_prefix_subset(cs: Seq<Ast>, class: Option<Seq<char>>, k: int, x: Seq<Seq<char>>)
    ensures
        py_symbol_prefix(cs, class, false, k).contains(x) ==> py_symbol_prefix(cs, class, true, k).contains(x),
    decreases cs, k,
{
    if k <= 0 || k > cs.len() {
    } else {
        lemma_py_prefix_subset(cs, class, k - 1, x);
        lemma_py_symbols_subset(cs[k - 1], class, x);
        let ef = if cs[k - 1].named { py_symbol_paths(cs[k - 1], class, false) } else { Seq::empty() };
        let et = if cs[k - 1].named { py_symbol_paths(cs[k - 1], class, true) } else { Seq::empty() };
        lemma_contains_concat(py_symbol_prefix(cs, class, false, k - 1), ef, x);
        lemma_contains_concat(py_symbol_prefix(cs, class, true, k - 1), et, x);
    }
}

proof fn lemma_top_prefix_subset(cs: Seq<Ast>, family: Family, k: int, x: Seq<Seq<char>>)
    ensures
        top_prefix(cs, family, true, false, k).contains(x) ==> top_prefix(cs, family, true, true, k).contains(x),
    decreases k,
{
    if k <= 0 || k > cs.len() {
    } else {
        lemma_top_prefix_subset(cs, family, k - 1, x);
        if family == Family::Python {
            lemma_py_symbols_subset(cs[k - 1], None, x);
        }
        let ef = if cs[k - 1].named { top_paths(cs[k - 1], family, true, false) } else { Seq::empty() };
        let et = if cs[k - 1].named { top_paths(cs[k - 1], family, true, true) } else { Seq::empty() };
        lemma_contains_concat(top_prefix(cs, family, true, false, k - 1), ef, x);
        lemma_contains_concat(top_prefix(cs, family, true, true, k - 1), et, x);
    }
}

/// Outside Python the candidates do not depend on `all`; for Rust and TypeScript they do not
/// depend on `symbols` either.
proof fn lemma_top_prefix_same(cs: Seq<Ast>, family: Family, s1: bool, a1: bool, s2: bool, a2: bool, k: int)
    requires
        family != Family::Python,
        s1 == s2 || family == Family::Rust || family == Family::TypeScript,
    ensures
        top_prefix(cs, family, s1, a1, k) == top_prefix(cs, family, s2, a2, k),
    decreases k,
{
    if k > 0 && k <= cs.len() {
        lemma_top_prefix_same(cs, family, s1, a1, s2, a2, k - 1);
    }
}

/// How the surfaces of a file relate: every callable is among all the symbols; outside
/// Python the two surfaces are the same; for Rust both are exactly the public functions.
pub proof fn lemma_surfaces_agree(source: Seq<char>, lang: Lang)
    ensures
        forall|x: Seq<Seq<char>>| #[trigger] symbol_surface(source, lang, Surface::Callables).contains(x) ==> symbol_surface(
            source,
            lang,
            Surface::All,
        ).contains(x),
        lang != Lang::Python ==> symbol_surface(source, lang, Surface::All) == symbol_surface(source, lang, Surface::Callables),
        lang == Lang::Rust ==> symbol_surface(source, lang, Surface::Callables) == fn_surface(source, lang),
        lang == Lang::Rust ==> symbol_surface(source, lang, Surface::All) == fn_surface(source, lang),
{
    match parsed(source, lang) {
        None => {},
        Some(t) => {
            let fam = lang.spec_family();
            let n = t.children.len() as int;
            assert forall|x: Seq<Seq<char>>| #[trigger] symbol_surface(source, lang, Surface::Callables).contains(x) implies symbol_surface(
                source,
                lang,
                Surface::All,
            ).contains(x) by {
                lemma_top_prefix_subset(t.children, fam, n, x);
            }
            if lang != Lang::Python {
                lemma_top_prefix_same(t.children, fam, true, true, true, false, n);
                assert(symbol_surface(source, lang, Surface::All) =~= symbol_surface(source, lang, Surface::Callables));
            }
            if lang == Lang::Rust {
                lemma_top_prefix_same(t.children, fam, true, false, false, false, n);
                lemma_top_prefix_same(t.children, fam, true, true, false, false, n);
                assert(symbol_surface(source, lang, Surface::Callables) =~= fn_surface(source, lang));
                assert(symbol_surface(source, lang, Surface::All) =~= fn_surface(source, lang));
            }
        },
    }
}

/// A strictly sorted list is fixed by its set of elements.
pub proof fn lemma_sorted_paths_unique(a: Seq<Seq<Seq<char>>>, b: Seq<Seq<Seq<char>>>)
    requires
        sorted_paths(a),
        sorted_paths(b),
        a.to_set() == b.to_set(),
    ensures
        a == b,
    decreases a.len(),
{
    if a.len() == 0 {
        if b.len() > 0 {
            assert(b.to_set().contains(b[0]));
            assert(a.to_set().contains(b[0]));
            assert(a.contains(b[0]));
            assert(false);
        }
        assert(a =~= b);
    } else {
        assert(a.to_set().contains(a[0]));
        assert(b.contains(a[0]));
        let j = choose|j: int| 0 <= j < b.len() && b[j] == a[0];
        assert(b.to_set().contains(b[0]));
        assert(a.contains(b[0]));
        let i = choose|i: int| 0 <= i < a.len() && a[i] == b[0];
        if j > 0 {
            assert(crate::order::path_lt(b[0], b[j]));
            if i > 0 {
                assert(crate::order::path_lt(a[0], a[i]));
                crate::order::lemma_path_lt_trans(b[0], a[0], b[0]);
            }
            crate::order::lemma_path_lt_irrefl(b[0]);
        }
        assert(b[0] == a[0]);
        let a2 = a.drop_first();
        let b2 = b.drop_first();
        assert forall|x: Seq<Seq<char>>| a2.to_set().contains(x) == b2.to_set().contains(x) by {
            if a2.contains(x) {
                let k = choose|k: int| 0 <= k < a2.len() && a2[k] == x;
                assert(a[k + 1] == x);
                assert(crate::order::path_lt(a[0], a[k + 1]));
                crate::order::lemma_path_lt_irrefl(x);
                assert(a.to_set().contains(x));
                let m = choose|m: int| 0 <= m < b.len() && b[m] == x;
                assert(m != 0);
                assert(b2[m - 1] == x);
            }
            if b2.contains(x) {
                let k = choose|k: int| 0 <= k < b2.len() && b2[k] == x;
                assert(b[k + 1] == x);
                assert(crate::order::path_lt(b[0], b[k + 1]));
                crate::order::lemma_path_lt_irrefl(x);
                assert(b.to_set().contains(x));
                let m = choose|m: int| 0 <= m < a.len() && a[m] == x;
                assert(m != 0);
                assert(a2[m - 1] == x);
            }
        }
        assert(a2.to_set() =~= b2.to_set());
        assert forall|p: int, q: int| 0 <= p < q < a2.len() implies crate::order::path_lt(#[trigger] a2[p], #[trigger] a2[q]) by {
            assert(a2[p] == a[p + 1]);
            assert(a2[q] == a[q + 1]);
        }
        assert forall|p: int, q: int| 0 <= p < q < b2.len() implies crate::order::path_lt(#[trigger] b2[p], #[trigger] b2[q]) by {
            assert(b2[p] == b[p + 1]);
            assert(b2[q] == b[q + 1]);
        }
        lemma_sorted_paths_unique(a2, b2);
        assert(a.len() == b.len());
        assert forall|k: int| 0 <= k < a.len() implies a[k] == b[k] by {
            if k > 0 {
                assert(a[k] == a2[k - 1]);
                assert(b[k] == b2[k - 1]);
            }
        }
        assert(a =~= b);
    }
}

/// For Rust, the public symbols are the public functions, one segment each, whichever
/// surface is asked for (given what `public_symbols` and `public_fns` return).
pub proof fn lemma_rust_symbols_are_fns(source: Seq<char>, surface: Surface, syms: Seq<Seq<Seq<char>>>, fns: Seq<Seq<Seq<char>>>)
    requires
        sorted_paths(syms),
        syms.to_set() == symbol_surface(source, Lang::Rust, surface),
        sorted_paths(fns),
        fns.to_set() == fn_surface(source, Lang::Rust),
    ensures
        syms == fns,
{
    lemma_surfaces_agree(source, Lang::Rust);
    lemma_sorted_paths_unique(syms, fns);
}

/// The two surfaces of a file as `public_symbols` returns them: every callable is among all
/// the symbols, and outside Python the two lists are the same.
pub proof fn lemma_public_symbols_agree(source: Seq<char>, lang: Lang, callables: Seq<Seq<Seq<char>>>, all: Seq<Seq<Seq<char>>>)
    requires
        sorted_paths(callables),
        callables.to_set() == symbol_surface(source, lang, Surface::Callables),
        sorted_paths(all),
        all.to_set() == symbol_surface(source, lang, Surface::All),
    ensures
        forall|x: Seq<Seq<char>>| #[trigger] callables.contains(x) ==> all.contains(x),
        lang != Lang::Python ==> callables == all,
{
    lemma_surfaces_agree(source, lang);
    assert forall|x: Seq<Seq<char>>| #[trigger] callables.contains(x) implies all.contains(x) by {
        assert(callables.to_set().contains(x));
        assert(all.to_set().contains(x));
    }
    if lang != Lang::Python {
        lemma_sorted_paths_unique(callables, all);
    }
}

} // verus!
