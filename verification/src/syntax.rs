//! Syntax trees. The bundled tree-sitter grammars parse a file; the visible nodes are
//! lowered, in preorder with their depths, into plain values and rebuilt here into a tree
//! that the rest of the library reads: each node's kind, whether it is named, the field it
//! fills in its parent, its source text, its byte and row extent, and its children.

use vstd::prelude::*;
use vstd::string::StringSliceAdditionalSpecFns;
use crate::lang::{Grammar, Lang};
use crate::text::{first_where, lemma_first_where, text_is};

verus! {

broadcast use vstd::std_specs::vec::group_vec_axioms, vstd::seq::group_seq_axioms;

/// One visible node as the parser reports it, in preorder.
pub struct RawNode {
    pub kind: String,
    pub named: bool,
    pub field: Option<String>,
    pub depth: usize,
    pub start_byte: usize,
    pub end_byte: usize,
    pub start_row: usize,
    pub end_row: usize,
    pub text: Option<String>,
}

pub struct RawModel {
    pub kind: Seq<char>,
    pub named: bool,
    pub field: Option<Seq<char>>,
    pub depth: nat,
    pub start_byte: nat,
    pub end_byte: nat,
    pub start_row: nat,
    pub end_row: nat,
    pub text: Option<Seq<char>>,
}

/// A syntax tree as a mathematical value.
pub struct Ast {
    pub kind: Seq<char>,
    pub named: bool,
    pub field: Option<Seq<char>>,
    pub start_byte: nat,
    pub end_byte: nat,
    pub start_row: nat,
    pub end_row: nat,
    pub text: Option<Seq<char>>,
    pub children: Seq<Ast>,
}

/// A syntax tree node.
pub struct SyntaxNode {
    pub kind: String,
    pub named: bool,
    pub field: Option<String>,
    pub start_byte: usize,
    pub end_byte: usize,
    pub start_row: usize,
    pub end_row: usize,
    pub text: Option<String>,
    pub children: Vec<SyntaxNode>,
}

pub open spec fn opt_view(o: Option<String>) -> Option<Seq<char>> {
    match o {
        Some(s) => Some(s@),
        None => None,
    }
}

impl View for RawNode {
    type V = RawModel;

    open spec fn view(&self) -> RawModel {
        RawModel {
            kind: self.kind@,
            named: self.named,
            field: opt_view(self.field),
            depth: self.depth as nat,
            start_byte: self.start_byte as nat,
            end_byte: self.end_byte as nat,
            start_row: self.start_row as nat,
            end_row: self.end_row as nat,
            text: opt_view(self.text),
        }
    }
}

pub open spec fn raw_models(raws: Seq<RawNode>) -> Seq<RawModel> {
    raws.map_values(|r: RawNode| r@)
}

pub open spec fn empty_tree() -> Ast {
    Ast {
        kind: Seq::empty(),
        named: false,
        field: None,
        start_byte: 0,
        end_byte: 0,
        start_row: 0,
        end_row: 0,
        text: None,
        children: Seq::empty(),
    }
}

pub open spec fn tree_of(n: SyntaxNode) -> Ast
    decreases n,
{
    Ast {
        kind: n.kind@,
        named: n.named,
        field: opt_view(n.field),
        start_byte: n.start_byte as nat,
        end_byte: n.end_byte as nat,
        start_row: n.start_row as nat,
        end_row: n.end_row as nat,
        text: opt_view(n.text),
        children: Seq::new(
            n.children@.len(),
            |k: int|
                {
                    if 0 <= k < n.children@.len() {
                        tree_of(n.children@[k])
                    } else {
                        empty_tree()
                    }
                },
        ),
    }
}

impl View for SyntaxNode {
    type V = Ast;

    open spec fn view(&self) -> Ast {
        tree_of(*self)
    }
}

/// The subtree that starts at `raws[i]`, and the index just past it.
pub open spec fn build_node(raws: Seq<RawModel>, i: int) -> (Ast, int)
    decreases raws.len() - i, 0int,
{
    if 0 <= i < raws.len() {
        let r = raws[i];
        let (cs, next) = build_children(raws, i + 1, r.depth + 1);
        (
            Ast {
                kind: r.kind,
                named: r.named,
                field: r.field,
                start_byte: r.start_byte,
                end_byte: r.end_byte,
                start_row: r.start_row,
                end_row: r.end_row,
                text: r.text,
                children: cs,
            },
            next,
        )
    } else {
        (empty_tree(), i + 1)
    }
}

/// The consecutive subtrees at depth `d` from `raws[j]` on, and the index just past them.
pub open spec fn build_children(raws: Seq<RawModel>, j: int, d: nat) -> (Seq<Ast>, int)
    decreases raws.len() - j, 1int,
{
    if 0 <= j < raws.len() && raws[j].depth == d {
        let (c, next) = build_node(raws, j);
        if j < next <= raws.len() {
            let (rest, end) = build_children(raws, next, d);
            (seq![c] + rest, end)
        } else {
            (seq![c], j + 1)
        }
    } else {
        (Seq::empty(), j)
    }
}

/// The tree that a preorder listing with depths describes.
pub open spec fn tree_of_raws(raws: Seq<RawModel>) -> Option<Ast> {
    if raws.len() == 0 {
        None
    } else {
        Some(build_node(raws, 0).0)
    }
}

/// The visible nodes of a parsed tree in preorder (tree-sitter's descendant order), with
/// their depths and extents; the text is not part of the tree and is left `None`.
pub uninterp spec fn tree_shapes(t: tree_sitter::Tree) -> Seq<RawModel>;

/// The listing of the tree that the bundled grammar gives for a source, text aside.
pub uninterp spec fn shapes_of(source: Seq<char>, grammar: Grammar) -> Option<Seq<RawModel>>;

/// `str::get(start..end)`: the text of bytes `start..end` of the UTF-8 encoding of `source`,
/// when that range lies within it and both ends fall on character boundaries.
pub open spec fn byte_text(source: Seq<char>, start: nat, end: nat) -> Option<Seq<char>> {
    let bytes = vstd::utf8::encode_utf8(source);
    if start <= end <= bytes.len() && vstd::utf8::is_char_boundary(bytes, start as int) && vstd::utf8::is_char_boundary(
        bytes,
        end as int,
    ) {
        Some(vstd::utf8::decode_utf8(bytes.subrange(start as int, end as int)))
    } else {
        None
    }
}

/// The tree-sitter language value of a bundled grammar.
pub uninterp spec fn grammar_language(grammar: Grammar) -> tree_sitter::Language;

/// A listed node with its source text.
pub open spec fn with_text(source: Seq<char>, r: RawModel) -> RawModel {
    RawModel { text: byte_text(source, r.start_byte, r.end_byte), ..r }
}

/// The preorder listing of the visible nodes that the bundled grammar gives for a source,
/// each with its text.
pub open spec fn syntax_of(source: Seq<char>, grammar: Grammar) -> Option<Seq<RawModel>> {
    match shapes_of(source, grammar) {
        Some(sh) => Some(sh.map_values(|r: RawModel| with_text(source, r))),
        None => None,
    }
}

/// The syntax tree of a source file in a language.
pub open spec fn parsed(source: Seq<char>, lang: Lang) -> Option<Ast> {
    match syntax_of(source, lang.spec_grammar()) {
        Some(raws) => tree_of_raws(raws),
        None => None,
    }
}

#[verifier::external_type_specification]
#[verifier::external_body]
pub struct ExLanguage(tree_sitter::Language);

#[verifier::external_type_specification]
#[verifier::external_body]
pub struct ExTree(tree_sitter::Tree);

/// The `tree_sitter::Language` of each bundled grammar, from the grammar crates'
/// `LANGUAGE*` constants: one grammar tag to one language value.
#[verifier::external_body]
fn language_for(grammar: Grammar) -> (l: tree_sitter::Language)
    ensures
        l == grammar_language(grammar),
{
    match grammar {
        Grammar::TypeScript => tree_sitter_typescript::LANGUAGE_TYPESCRIPT.into(),
        Grammar::Tsx => tree_sitter_typescript::LANGUAGE_TSX.into(),
        Grammar::Rust => tree_sitter_rust::LANGUAGE.into(),
        Grammar::Python => tree_sitter_python::LANGUAGE.into(),
        Grammar::Go => tree_sitter_go::LANGUAGE.into(),
    }
}

/// `Parser::set_language` then `Parser::parse`. The contract claims that the tree is a
/// function of the source and the grammar (tree-sitter parsing is deterministic); what the
/// grammar makes of a text is left unsaid.
#[verifier::external_body]
fn parse_source(source: &str, grammar: Grammar, language: &tree_sitter::Language) -> (r: Option<tree_sitter::Tree>)
    requires
        *language == grammar_language(grammar),
    ensures
        match r {
            Some(t) => shapes_of(source@, grammar) == Some(tree_shapes(t)),
            None => shapes_of(source@, grammar) is None,
        },
{
    let mut parser = tree_sitter::Parser::new();
    parser.set_language(language).ok()?;
    parser.parse(source, None)
}

/// `Node::descendant_count` of the root: the number of visible nodes, the root included.
#[verifier::external_body]
fn node_count(t: &tree_sitter::Tree) -> (n: usize)
    ensures
        n == tree_shapes(*t).len(),
{
    t.root_node().descendant_count()
}

/// `TreeCursor::goto_descendant(i)` from the root, then the current node's kind, whether it
/// is named, the cursor's field name and depth, and the node's byte and row extent.
#[verifier::external_body]
fn node_shape(t: &tree_sitter::Tree, i: usize) -> (r: RawNode)
    requires
        i < tree_shapes(*t).len(),
    ensures
        r@ == tree_shapes(*t)[i as int],
{
    let mut c = t.walk();
    c.goto_descendant(i);
    let n = c.node();
    RawNode { kind: n.kind().to_string(), named: n.is_named(), field: c.field_name().map(String::from), depth: c.depth() as usize, start_byte: n.start_byte(), end_byte: n.end_byte(), start_row: n.start_position().row, end_row: n.end_position().row, text: None }
}

/// A boundary inside a prefix that ends on a boundary is a boundary of that prefix.
proof fn lemma_prefix_boundary(bytes: Seq<u8>, start: int, end: int)
    requires
        vstd::utf8::valid_utf8(bytes),
        0 <= start <= end <= bytes.len(),
        vstd::utf8::is_char_boundary(bytes, start),
        vstd::utf8::is_char_boundary(bytes, end),
    ensures
        vstd::utf8::valid_utf8(bytes.subrange(0, end)),
        vstd::utf8::is_char_boundary(bytes.subrange(0, end), start),
{
    vstd::utf8::valid_utf8_split(bytes, end);
    let head = bytes.subrange(0, end);
    vstd::utf8::is_char_boundary_start_end_of_seq(head);
    if 0 < start < end {
        vstd::utf8::is_char_boundary_iff_not_is_continuation_byte(bytes, start);
        vstd::utf8::is_char_boundary_iff_not_is_continuation_byte(head, start);
        assert(head[start] == bytes[start]);
    }
}

/// `str::get(start..end)`, owned: the text of the byte range when both ends are character
/// boundaries within the text.
pub(crate) fn byte_range_text(source: &str, start: usize, end: usize) -> (r: Option<String>)
    ensures
        opt_view(r) == byte_text(source@, start as nat, end as nat),
{
    broadcast use vstd::utf8::encode_utf8_valid_utf8, vstd::utf8::encode_utf8_decode_utf8;
    let ghost bytes = vstd::utf8::encode_utf8(source@);
    let n = source.as_bytes().len();
    if start > end || end > n {
        return None;
    }
    if !source.is_char_boundary(start) || !source.is_char_boundary(end) {
        return None;
    }
    proof {
        lemma_prefix_boundary(bytes, start as int, end as int);
    }
    let (head, _) = source.split_at(end);
    let (_, mid) = head.split_at(start);
    proof {
        let hb = bytes.subrange(0, end as int);
        assert(head.spec_bytes() =~= hb);
        assert(mid.spec_bytes() =~= bytes.subrange(start as int, end as int));
        assert(vstd::utf8::decode_utf8(mid.spec_bytes()) == mid@);
    }
    Some(mid.to_owned())
}

/// The preorder listing of the visible nodes of `source`, each with its text.
fn parse_nodes(source: &str, grammar: Grammar) -> (r: Option<Vec<RawNode>>)
    ensures
        match r {
            Some(v) => syntax_of(source@, grammar) == Some(raw_models(v@)),
            None => syntax_of(source@, grammar) is None,
        },
{
    let language = language_for(grammar);
    let tree = match parse_source(source, grammar, &language) {
        Some(t) => t,
        None => return None,
    };
    let n = node_count(&tree);
    let ghost listed = tree_shapes(tree).map_values(|r: RawModel| with_text(source@, r));
    let mut out: Vec<RawNode> = Vec::new();
    let mut i: usize = 0;
    while i < n
        invariant
            i <= n == tree_shapes(tree).len(),
            listed == tree_shapes(tree).map_values(|r: RawModel| with_text(source@, r)),
            raw_models(out@) == listed.take(i as int),
        decreases n - i,
    {
        let mut node = node_shape(&tree, i);
        let text = byte_range_text(source, node.start_byte, node.end_byte);
        node.text = text;
        proof {
            assert(node@ == listed[i as int]);
            assert(raw_models(out@.push(node)) =~= raw_models(out@).push(node@));
            assert(listed.take(i + 1) =~= listed.take(i as int).push(listed[i as int]));
        }
        out.push(node);
        i += 1;
    }
    proof {
        assert(listed.take(i as int) =~= listed);
    }
    Some(out)
}

fn clone_opt(o: &Option<String>) -> (r: Option<String>)
    ensures
        opt_view(r) == opt_view(*o),
{
    match o {
        Some(s) => Some(s.clone()),
        None => None,
    }
}

proof fn lemma_children_view(n: SyntaxNode)
    ensures
        tree_of(n).children =~= n.children@.map_values(|c: SyntaxNode| tree_of(c)),
{
}

fn build_node_exec(raws: &Vec<RawNode>, i: usize) -> (r: (SyntaxNode, usize))
    requires
        i < raws@.len(),
    ensures
        (tree_of(r.0), r.1 as int) == build_node(raw_models(raws@), i as int),
        i < r.1 <= raws@.len(),
    decreases raws@.len() - i,
{
    let ghost m = raw_models(raws@);
    let len = raws.len();
    let d = raws[i].depth;
    let mut children: Vec<SyntaxNode> = Vec::new();
    let mut j = i + 1;
    proof {
        assert(children@.map_values(|c: SyntaxNode| tree_of(c)) + build_children(m, j as int, d as nat + 1).0 =~= build_children(m, j as int, d as nat + 1).0);
    }
    if d < usize::MAX {
        while j < raws.len() && raws[j].depth == d + 1
            invariant
                i < j <= raws@.len(),
                d == raws@[i as int].depth,
                d < usize::MAX,
                m == raw_models(raws@),
                build_children(m, i + 1, d as nat + 1) == (
                    children@.map_values(|c: SyntaxNode| tree_of(c)) + build_children(m, j as int, d as nat + 1).0,
                    build_children(m, j as int, d as nat + 1).1,
                ),
            decreases raws@.len() - j,
        {
            let (c, next) = build_node_exec(raws, j);
            proof {
                let (rest, end) = build_children(m, next as int, d as nat + 1);
                assert(build_children(m, j as int, d as nat + 1) == (seq![tree_of(c)] + rest, end));
                assert(children@.push(c).map_values(|c: SyntaxNode| tree_of(c)) =~= children@.map_values(|c: SyntaxNode| tree_of(c)).push(tree_of(c)));
                assert(children@.map_values(|c: SyntaxNode| tree_of(c)) + (seq![tree_of(c)] + rest) =~= children@.map_values(|c: SyntaxNode| tree_of(c)).push(tree_of(c)) + rest);
            }
            children.push(c);
            j = next;
        }
    }
    proof {
        assert(build_children(m, j as int, d as nat + 1).0 =~= Seq::<Ast>::empty());
        assert(children@.map_values(|c: SyntaxNode| tree_of(c)) + Seq::<Ast>::empty() =~= children@.map_values(|c: SyntaxNode| tree_of(c)));
    }
    let r = &raws[i];
    let node = SyntaxNode {
        kind: r.kind.clone(),
        named: r.named,
        field: clone_opt(&r.field),
        start_byte: r.start_byte,
        end_byte: r.end_byte,
        start_row: r.start_row,
        end_row: r.end_row,
        text: clone_opt(&r.text),
        children,
    };
    proof {
        lemma_children_view(node);
    }
    (node, j)
}

/// Parses `source` as `lang` into a syntax tree.
pub fn parse_tree(source: &str, lang: Lang) -> (t: Option<SyntaxNode>)
    ensures
        match t {
            Some(n) => parsed(source@, lang) == Some(n@),
            None => parsed(source@, lang) is None,
        },
{
    let grammar = lang.grammar();
    match parse_nodes(source, grammar) {
        None => None,
        Some(raws) => {
            if raws.len() == 0 {
                None
            } else {
                Some(build_node_exec(&raws, 0).0)
            }
        },
    }
}


pub open spec fn has_field(f: Seq<char>) -> spec_fn(Ast) -> bool {
    |c: Ast| c.field == Some(f)
}

/// `Node::child_by_field_name`: the first child filling field `f`.
pub open spec fn child_by_field(t: Ast, f: Seq<char>) -> Option<Ast> {
    match first_where(t.children, has_field(f)) {
        Some(i) => Some(t.children[i]),
        None => None,
    }
}

/// The text of the child filling field `f`.
pub open spec fn field_text(t: Ast, f: Seq<char>) -> Option<Seq<char>> {
    match child_by_field(t, f) {
        Some(c) => c.text,
        None => None,
    }
}

pub open spec fn opt_tree(o: Option<&SyntaxNode>) -> Option<Ast> {
    match o {
        Some(n) => Some(n@),
        None => None,
    }
}

pub open spec fn opt_text(o: Option<&String>) -> Option<Seq<char>> {
    match o {
        Some(s) => Some(s@),
        None => None,
    }
}

proof fn lemma_children_index(n: &SyntaxNode, i: int)
    requires
        0 <= i < n.children@.len(),
    ensures
        n@.children[i] == n.children@[i]@,
        n@.children.len() == n.children@.len(),
{
}

pub fn child_by_field_exec<'a>(n: &'a SyntaxNode, f: &str) -> (r: Option<&'a SyntaxNode>)
    ensures
        opt_tree(r) == child_by_field(n@, f@),
{
    let mut i: usize = 0;
    while i < n.children.len()
        invariant
            i <= n.children@.len(),
            n@.children.len() == n.children@.len(),
            forall|k: int| 0 <= k < i ==> !has_field(f@)(#[trigger] n@.children[k]),
        decreases n.children@.len() - i,
    {
        let c = &n.children[i];
        proof {
            lemma_children_index(n, i as int);
        }
        let hit = match &c.field {
            Some(name) => text_is(name, f),
            None => false,
        };
        if hit {
            proof {
                lemma_first_where(n@.children, has_field(f@), i as int);
            }
            return Some(c);
        }
        i += 1;
    }
    proof {
        lemma_first_where(n@.children, has_field(f@), i as int);
    }
    None
}

pub fn field_text_exec<'a>(n: &'a SyntaxNode, f: &str) -> (r: Option<&'a String>)
    ensures
        opt_text(r) == field_text(n@, f@),
{
    match child_by_field_exec(n, f) {
        Some(c) => match &c.text {
            Some(t) => Some(t),
            None => None,
        },
        None => None,
    }
}


pub proof fn lemma_first_where_bounds<A>(s: Seq<A>, p: spec_fn(A) -> bool)
    ensures
        first_where(s, p) matches Some(i) ==> 0 <= i < s.len() && p(s[i]),
    decreases s.len(),
{
    if s.len() > 0 {
        lemma_first_where_bounds(s.drop_first(), p);
    }
}

} // verus!
