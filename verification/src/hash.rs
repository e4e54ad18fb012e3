//! The canonical fingerprint of a symbol, and the advisory size of a change.
//!
//! The fingerprint is computed over a canonical token stream of the symbol's subtree:
//! whitespace never reaches the tree; comments are dropped; identifiers become positional
//! placeholders (`#0`, `#1`, ...) in order of first occurrence, so a consistent rename keeps
//! the stream while swapping two names does not (the names inside a Python decorator are kept
//! as written, so a changed decorator is a change); operators, keywords, punctuation and literal
//! values are kept verbatim. The stream is hashed with SHA-256 and the first six bytes are
//! written as twelve lowercase hex digits.
//!
//! `Magnitude` is triage metadata only: it never decides pass or fail.

use vstd::prelude::*;
use sha2::Digest;
use crate::anchor::{Anchor, AnchorModel};
use crate::lang::{Family, Lang};
use crate::resolve::{Match, ResolveError, ResolveErrorModel, anchor_ok, resolve_tree, resolve_in, matches_view, lemma_resolved_nonempty};
use crate::syntax::{Ast, SyntaxNode, parsed, parse_tree};
use crate::text::{text_is, contains_seq, contains_str, decimal, push_decimal, first_where, lemma_first_where, digit_char};

verus! {

broadcast use vstd::std_specs::vec::group_vec_axioms, vstd::seq::group_seq_axioms;

/// Per-claim fingerprint options.
#[derive(Debug, Clone, Copy, PartialEq, Eq, Structural)]
pub struct HashOpts {
    /// Leave the content of string literals out of the fingerprint, so a copy edit inside
    /// the span does not count as a change. Operators and numbers still do.
    pub ignore_literals: bool,
}

impl Default for HashOpts {
    fn default() -> (r: HashOpts)
        ensures
            r == (HashOpts { ignore_literals: false }),
    {
        HashOpts { ignore_literals: false }
    }
}

/// Advisory size of a change.
#[derive(Debug, Clone, Copy, PartialEq, Eq, Structural)]
pub enum Magnitude {
    Small,
    Medium,
    Large,
}

pub open spec fn is_identifier_kind(k: Seq<char>, family: Family) -> bool {
    match family {
        Family::Rust => k == "identifier"@ || k == "type_identifier"@ || k == "field_identifier"@
            || k == "shorthand_field_identifier"@,
        Family::TypeScript => k == "identifier"@ || k == "type_identifier"@ || k == "property_identifier"@
            || k == "shorthand_property_identifier"@ || k == "shorthand_property_identifier_pattern"@
            || k == "private_property_identifier"@,
        Family::Python => k == "identifier"@,
        Family::Go => k == "identifier"@ || k == "type_identifier"@ || k == "field_identifier"@
            || k == "package_identifier"@,
    }
}

pub open spec fn is_string_literal_kind(k: Seq<char>) -> bool {
    k == "string"@ || k == "string_literal"@ || k == "raw_string_literal"@ || k == "interpreted_string_literal"@
}

pub open spec fn node_text(t: Ast) -> Seq<char> {
    match t.text {
        Some(s) => s,
        None => Seq::empty(),
    }
}

/// The placeholder number of an identifier: its position among the identifiers seen so
/// far, or the next number when it is new.
pub open spec fn ident_index(ids: Seq<Seq<char>>, text: Seq<char>) -> nat {
    match first_where(ids, same_text(text)) {
        Some(i) => i as nat,
        None => ids.len(),
    }
}

pub open spec fn same_text(text: Seq<char>) -> spec_fn(Seq<char>) -> bool {
    |x: Seq<char>| x == text
}

pub open spec fn placeholder(i: nat) -> Seq<char> {
    seq!['#'] + decimal(i)
}

/// A Python decorator names a callable from outside the symbol; its names are kept as written,
/// so that swapping one decorator for another changes the fingerprint.
pub open spec fn keeps_names(t: Ast, family: Family) -> bool {
    family == Family::Python && t.kind == "decorator"@
}

/// Appends the canonical tokens of `t` to `st.0`, with `st.1` the identifiers seen so far;
/// with `keep`, identifiers are written out rather than numbered.
pub open spec fn emit(t: Ast, family: Family, opts: HashOpts, keep: bool, st: (Seq<Seq<char>>, Seq<Seq<char>>)) -> (Seq<Seq<char>>, Seq<Seq<char>>)
    decreases t, 0int,
{
    let (out, ids) = st;
    if contains_seq(t.kind, "comment"@) {
        st
    } else if t.named {
        if is_identifier_kind(t.kind, family) && !keep {
            let i = ident_index(ids, node_text(t));
            (out.push(placeholder(i)), if i == ids.len() { ids.push(node_text(t)) } else { ids })
        } else if opts.ignore_literals && is_string_literal_kind(t.kind) {
            (out.push(t.kind), ids)
        } else if t.children.len() == 0 {
            (out.push(t.kind + seq![':'] + node_text(t)), ids)
        } else {
            emit_children(t.children, family, opts, keep || keeps_names(t, family), (out.push(t.kind), ids), 0)
        }
    } else {
        (out.push(t.kind), ids)
    }
}

pub open spec fn emit_children(cs: Seq<Ast>, family: Family, opts: HashOpts, keep: bool, st: (Seq<Seq<char>>, Seq<Seq<char>>), i: int) -> (Seq<Seq<char>>, Seq<Seq<char>>)
    decreases cs, cs.len() - i,
{
    if i < 0 || i >= cs.len() {
        st
    } else {
        emit_children(cs, family, opts, keep, emit(cs[i], family, opts, keep, st), i + 1)
    }
}

/// `emit` over the nodes of a symbol in order, sharing one identifier numbering.
pub open spec fn emit_nodes(ns: Seq<Ast>, family: Family, opts: HashOpts, st: (Seq<Seq<char>>, Seq<Seq<char>>)) -> (Seq<Seq<char>>, Seq<Seq<char>>)
    decreases ns.len(),
{
    if ns.len() == 0 {
        st
    } else {
        emit(ns.last(), family, opts, false, emit_nodes(ns.drop_last(), family, opts, st))
    }
}

/// `t` with the text of every identifier that `emit` numbers mapped by `f`: identifiers in
/// kept contexts, comments and the rest of the tree stay as they are.
pub open spec fn rename_idents(t: Ast, family: Family, opts: HashOpts, keep: bool, f: spec_fn(Seq<char>) -> Seq<char>) -> Ast
    decreases t, 0int,
{
    if contains_seq(t.kind, "comment"@) {
        t
    } else if t.named {
        if is_identifier_kind(t.kind, family) && !keep {
            Ast { text: Some(f(node_text(t))), ..t }
        } else if opts.ignore_literals && is_string_literal_kind(t.kind) {
            t
        } else if t.children.len() == 0 {
            t
        } else {
            Ast { children: rename_children(t.children, family, opts, keep || keeps_names(t, family), f, 0), ..t }
        }
    } else {
        t
    }
}

pub open spec fn rename_children(cs: Seq<Ast>, family: Family, opts: HashOpts, keep: bool, f: spec_fn(Seq<char>) -> Seq<char>, i: int) -> Seq<Ast>
    decreases cs, cs.len() - i,
{
    if i < 0 || i >= cs.len() {
        Seq::empty()
    } else {
        seq![rename_idents(cs[i], family, opts, keep, f)] + rename_children(cs, family, opts, keep, f, i + 1)
    }
}

/// `f` renames consistently: distinct names stay distinct.
pub open spec fn injective(f: spec_fn(Seq<char>) -> Seq<char>) -> bool {
    forall|a: Seq<char>, b: Seq<char>| #[trigger] f(a) == #[trigger] f(b) ==> a == b
}

proof fn lemma_ident_index_rename(ids: Seq<Seq<char>>, x: Seq<char>, f: spec_fn(Seq<char>) -> Seq<char>)
    requires
        injective(f),
    ensures
        ident_index(ids.map_values(f), f(x)) == ident_index(ids, x),
{
    lemma_first_where_rename(ids, x, f);
}

proof fn lemma_first_where_rename(ids: Seq<Seq<char>>, x: Seq<char>, f: spec_fn(Seq<char>) -> Seq<char>)
    requires
        injective(f),
    ensures
        first_where(ids.map_values(f), same_text(f(x))) == first_where(ids, same_text(x)),
    decreases ids.len(),
{
    let m = ids.map_values(f);
    let pm = same_text(f(x));
    let pi = same_text(x);
    if ids.len() > 0 {
        assert(m.drop_first() =~= ids.drop_first().map_values(f));
        lemma_first_where_rename(ids.drop_first(), x, f);
        assert(m[0] == f(ids[0]));
        if f(ids[0]) == f(x) {
            assert(ids[0] == x);
        }
        assert(pm(m[0]) == pi(ids[0]));
        if !pi(ids[0]) {
            assert(first_where(m, pm) == match first_where(m.drop_first(), pm) {
                Some(i) => Some(i + 1),
                None => None::<int>,
            });
            assert(first_where(ids, pi) == match first_where(ids.drop_first(), pi) {
                Some(i) => Some(i + 1),
                None => None::<int>,
            });
        }
    }
}

proof fn lemma_rename_children_len(cs: Seq<Ast>, family: Family, opts: HashOpts, keep: bool, f: spec_fn(Seq<char>) -> Seq<char>, i: int)
    requires
        0 <= i <= cs.len(),
    ensures
        rename_children(cs, family, opts, keep, f, i).len() == cs.len() - i,
        forall|k: int| 0 <= k < cs.len() - i ==> #[trigger] rename_children(cs, family, opts, keep, f, i)[k] == rename_idents(cs[i + k], family, opts, keep, f),
    decreases cs.len() - i,
{
    if i < cs.len() {
        lemma_rename_children_len(cs, family, opts, keep, f, i + 1);
        let r = rename_children(cs, family, opts, keep, f, i);
        assert forall|k: int| 0 <= k < cs.len() - i implies #[trigger] r[k] == rename_idents(cs[i + k], family, opts, keep, f) by {
            if k > 0 {
                assert(r[k] == rename_children(cs, family, opts, keep, f, i + 1)[k - 1]);
            }
        }
    }
}

/// Emitting a renamed tree gives the same tokens, with the renamed identifiers seen.
proof fn lemma_emit_rename(t: Ast, family: Family, opts: HashOpts, keep: bool, f: spec_fn(Seq<char>) -> Seq<char>, out: Seq<Seq<char>>, ids: Seq<Seq<char>>)
    requires
        injective(f),
    ensures
        emit(rename_idents(t, family, opts, keep, f), family, opts, keep, (out, ids.map_values(f)))
            == (emit(t, family, opts, keep, (out, ids)).0, emit(t, family, opts, keep, (out, ids)).1.map_values(f)),
    decreases t, 0int,
{
    let r = rename_idents(t, family, opts, keep, f);
    if contains_seq(t.kind, "comment"@) {
    } else if t.named {
        if is_identifier_kind(t.kind, family) && !keep {
            lemma_ident_index_rename(ids, node_text(t), f);
            assert(node_text(r) == f(node_text(t)));
            assert(ids.push(node_text(t)).map_values(f) =~= ids.map_values(f).push(f(node_text(t))));
        } else if opts.ignore_literals && is_string_literal_kind(t.kind) {
        } else if t.children.len() == 0 {
        } else {
            let inner = keep || keeps_names(t, family);
            lemma_rename_children_len(t.children, family, opts, inner, f, 0);
            assert(keeps_names(r, family) == keeps_names(t, family));
            lemma_emit_children_rename(t.children, family, opts, inner, f, out.push(t.kind), ids, 0);
        }
    } else {
    }
}

proof fn lemma_emit_children_rename(
    cs: Seq<Ast>,
    family: Family,
    opts: HashOpts,
    keep: bool,
    f: spec_fn(Seq<char>) -> Seq<char>,
    out: Seq<Seq<char>>,
    ids: Seq<Seq<char>>,
    i: int,
)
    requires
        injective(f),
        0 <= i <= cs.len(),
    ensures
        emit_children(rename_children(cs, family, opts, keep, f, 0), family, opts, keep, (out, ids.map_values(f)), i)
            == (emit_children(cs, family, opts, keep, (out, ids), i).0, emit_children(cs, family, opts, keep, (out, ids), i).1.map_values(f)),
    decreases cs, cs.len() - i,
{
    let rc = rename_children(cs, family, opts, keep, f, 0);
    lemma_rename_children_len(cs, family, opts, keep, f, 0);
    if i < cs.len() {
        assert(rc[i] == rename_idents(cs[i], family, opts, keep, f));
        lemma_emit_rename(cs[i], family, opts, keep, f, out, ids);
        let st = emit(cs[i], family, opts, keep, (out, ids));
        lemma_emit_children_rename(cs, family, opts, keep, f, st.0, st.1, i + 1);
    }
}

/// A consistent renaming of a symbol's identifiers leaves its canonical tokens, and so its
/// fingerprint, unchanged: the nodes are emitted with one numbering, renamed or not.
pub proof fn lemma_consistent_rename_same_tokens(ns: Seq<Ast>, family: Family, opts: HashOpts, f: spec_fn(Seq<char>) -> Seq<char>)
    requires
        injective(f),
    ensures
        emit_nodes(ns.map_values(|n: Ast| rename_idents(n, family, opts, false, f)), family, opts, (Seq::empty(), Seq::empty())).0
            == emit_nodes(ns, family, opts, (Seq::empty(), Seq::empty())).0,
{
    lemma_emit_nodes_rename(ns, family, opts, f);
}

proof fn lemma_emit_nodes_rename(ns: Seq<Ast>, family: Family, opts: HashOpts, f: spec_fn(Seq<char>) -> Seq<char>)
    requires
        injective(f),
    ensures
        ({
            let rn = ns.map_values(|n: Ast| rename_idents(n, family, opts, false, f));
            let a = emit_nodes(ns, family, opts, (Seq::empty(), Seq::empty()));
            emit_nodes(rn, family, opts, (Seq::empty(), Seq::empty())) == (a.0, a.1.map_values(f))
        }),
    decreases ns.len(),
{
    let rn = ns.map_values(|n: Ast| rename_idents(n, family, opts, false, f));
    assert(Seq::<Seq<char>>::empty().map_values(f) =~= Seq::<Seq<char>>::empty());
    if ns.len() > 0 {
        assert(rn.drop_last() =~= ns.drop_last().map_values(|n: Ast| rename_idents(n, family, opts, false, f)));
        lemma_emit_nodes_rename(ns.drop_last(), family, opts, f);
        let a = emit_nodes(ns.drop_last(), family, opts, (Seq::empty(), Seq::empty()));
        assert(rn.last() == rename_idents(ns.last(), family, opts, false, f));
        lemma_emit_rename(ns.last(), family, opts, false, f, a.0, a.1);
    }
}

pub open spec fn outers(g: Seq<Match>) -> Seq<Ast> {
    g.map_values(|m: Match| m.outer)
}

/// The canonical token stream of a resolved symbol.
pub open spec fn symbol_tokens(g: Seq<Match>, family: Family, opts: HashOpts) -> Seq<Seq<char>> {
    emit_nodes(outers(g), family, opts, (Seq::empty(), Seq::empty())).0
}

pub open spec fn tokens_view(v: Seq<String>) -> Seq<Seq<char>> {
    v.map_values(|s: String| s@)
}

fn ident_index_exec(ids: &Vec<String>, text: &String) -> (r: usize)
    ensures
        r as nat == ident_index(tokens_view(ids@), text@),
        r <= ids@.len(),
{
    let mut k: usize = 0;
    while k < ids.len()
        invariant
            k <= ids@.len(),
            forall|j: int| 0 <= j < k ==> !same_text(text@)(#[trigger] tokens_view(ids@)[j]),
        decreases ids@.len() - k,
    {
        if ids[k] == *text {
            proof {
                lemma_first_where(tokens_view(ids@), same_text(text@), k as int);
            }
            return k;
        }
        k += 1;
    }
    proof {
        lemma_first_where(tokens_view(ids@), same_text(text@), k as int);
    }
    k
}

fn text_of(n: &SyntaxNode) -> (s: String)
    ensures
        s@ == node_text(n@),
{
    match &n.text {
        Some(t) => t.clone(),
        None => String::new(),
    }
}

pub fn identifier_kind(k: &String, family: Family) -> (b: bool)
    ensures
        b == is_identifier_kind(k@, family),
{
    match family {
        Family::Rust => text_is(k, "identifier") || text_is(k, "type_identifier") || text_is(k, "field_identifier")
            || text_is(k, "shorthand_field_identifier"),
        Family::TypeScript => text_is(k, "identifier") || text_is(k, "type_identifier") || text_is(
            k,
            "property_identifier",
        ) || text_is(k, "shorthand_property_identifier") || text_is(k, "shorthand_property_identifier_pattern")
            || text_is(k, "private_property_identifier"),
        Family::Python => text_is(k, "identifier"),
        Family::Go => text_is(k, "identifier") || text_is(k, "type_identifier") || text_is(k, "field_identifier")
            || text_is(k, "package_identifier"),
    }
}

proof fn lemma_tokens_push(v: Seq<String>, s: String)
    ensures
        tokens_view(v.push(s)) =~= tokens_view(v).push(s@),
{
}

fn emit_exec(n: &SyntaxNode, family: Family, opts: HashOpts, keep: bool, out: &mut Vec<String>, ids: &mut Vec<String>)
    ensures
        (tokens_view(final(out)@), tokens_view(final(ids)@)) == emit(n@, family, opts, keep, (tokens_view(old(out)@), tokens_view(old(ids)@))),
    decreases n,
{
    if contains_str(&n.kind, "comment") {
        return;
    }
    if !n.named {
        proof {
            lemma_tokens_push(out@, n.kind);
        }
        out.push(n.kind.clone());
        return;
    }
    if identifier_kind(&n.kind, family) && !keep {
        let text = text_of(n);
        let i = ident_index_exec(ids, &text);
        let mut tok = String::new();
        tok.push('#');
        push_decimal(&mut tok, i);
        proof {
            assert(tok@ =~= placeholder(i as nat));
            lemma_tokens_push(out@, tok);
        }
        out.push(tok);
        if i == ids.len() {
            proof {
                lemma_tokens_push(ids@, text);
            }
            ids.push(text);
        }
        return;
    }
    let string_kind = text_is(&n.kind, "string") || text_is(&n.kind, "string_literal") || text_is(
        &n.kind,
        "raw_string_literal",
    ) || text_is(&n.kind, "interpreted_string_literal");
    if opts.ignore_literals && string_kind {
        proof {
            lemma_tokens_push(out@, n.kind);
        }
        out.push(n.kind.clone());
        return;
    }
    if n.children.len() == 0 {
        let mut tok = n.kind.clone();
        tok.push(':');
        tok.append(text_of(n).as_str());
        proof {
            assert(tok@ =~= n@.kind + seq![':'] + node_text(n@));
            lemma_tokens_push(out@, tok);
        }
        out.push(tok);
        return;
    }
    proof {
        lemma_tokens_push(out@, n.kind);
    }
    let inner = keep || (family == Family::Python && text_is(&n.kind, "decorator"));
    out.push(n.kind.clone());
    let ghost st0 = (tokens_view(out@), tokens_view(ids@));
    let mut i: usize = 0;
    while i < n.children.len()
        invariant
            i <= n.children@.len(),
            n@.children.len() == n.children@.len(),
            inner == (keep || keeps_names(n@, family)),
            emit_children(n@.children, family, opts, inner, st0, 0) == emit_children(n@.children, family, opts, inner, (tokens_view(out@), tokens_view(ids@)), i as int),
        decreases n.children@.len() - i,
    {
        let c = &n.children[i];
        proof {
            assert(n@.children[i as int] == c@);
        }
        emit_exec(c, family, opts, inner, out, ids);
        i += 1;
    }
}

/// The canonical token stream of a resolved symbol's nodes.
pub fn symbol_tokens_exec<'a>(g: &Vec<(&'a SyntaxNode, &'a SyntaxNode)>, family: Family, opts: HashOpts) -> (r: Vec<String>)
    ensures
        tokens_view(r@) == symbol_tokens(matches_view(g@), family, opts),
{
    let mut out: Vec<String> = Vec::new();
    let mut ids: Vec<String> = Vec::new();
    let ghost os = outers(matches_view(g@));
    let mut k: usize = 0;
    proof {
        assert(os.take(0) =~= Seq::<Ast>::empty());
        assert(tokens_view(out@) =~= Seq::<Seq<char>>::empty());
        assert(tokens_view(ids@) =~= Seq::<Seq<char>>::empty());
    }
    while k < g.len()
        invariant
            k <= g@.len(),
            os == outers(matches_view(g@)),
            (tokens_view(out@), tokens_view(ids@)) == emit_nodes(os.take(k as int), family, opts, (Seq::empty(), Seq::empty())),
        decreases g@.len() - k,
    {
        emit_exec(g[k].1, family, opts, false, &mut out, &mut ids);
        proof {
            assert(os.take(k + 1).drop_last() =~= os.take(k as int));
            assert(os.take(k + 1).last() == g@[k as int].1@);
        }
        k += 1;
    }
    proof {
        assert(os.take(k as int) =~= os);
    }
    out
}


/// The bytes that are hashed: each token in UTF-8 followed by a zero byte.
pub open spec fn token_bytes(ts: Seq<Seq<char>>) -> Seq<u8>
    decreases ts.len(),
{
    if ts.len() == 0 {
        Seq::empty()
    } else {
        token_bytes(ts.drop_last()) + vstd::utf8::encode_utf8(ts.last()) + seq![0u8]
    }
}

/// SHA-256 of a byte string.
pub uninterp spec fn sha256_of(data: Seq<u8>) -> Seq<u8>;

/// `sha2::Sha256::digest`: the SHA-256 digest of `data`, which is 32 bytes long and a
/// function of the data alone. What the digest is, is left to the crate.
#[verifier::external_body]
fn sha256(data: &[u8]) -> (d: Vec<u8>)
    ensures
        d@ == sha256_of(data@),
        d@.len() == 32,
{
    sha2::Sha256::digest(data).to_vec()
}

pub open spec fn hex_digit(d: nat) -> char {
    if d < 10 {
        digit_char(d)
    } else if d == 10 {
        'a'
    } else if d == 11 {
        'b'
    } else if d == 12 {
        'c'
    } else if d == 13 {
        'd'
    } else if d == 14 {
        'e'
    } else {
        'f'
    }
}

/// Lowercase hex, two digits per byte.
pub open spec fn hex_of(bytes: Seq<u8>) -> Seq<char>
    decreases bytes.len(),
{
    if bytes.len() == 0 {
        Seq::empty()
    } else {
        hex_of(bytes.drop_last()) + seq![hex_digit((bytes.last() / 16) as nat), hex_digit((bytes.last() % 16) as nat)]
    }
}

/// A lowercase hex digit.
pub open spec fn is_hex_char(c: char) -> bool {
    ('0' <= c && c <= '9') || ('a' <= c && c <= 'f')
}

/// The shape of every fingerprint: twelve lowercase hex digits.
pub open spec fn fingerprint_shaped(s: Seq<char>) -> bool {
    s.len() == 12 && forall|k: int| 0 <= k < s.len() ==> is_hex_char(#[trigger] s[k])
}

proof fn lemma_hex_of_shape(b: Seq<u8>)
    ensures
        hex_of(b).len() == 2 * b.len(),
        forall|k: int| 0 <= k < hex_of(b).len() ==> is_hex_char(#[trigger] hex_of(b)[k]),
    decreases b.len(),
{
    if b.len() > 0 {
        lemma_hex_of_shape(b.drop_last());
        let h = hex_of(b);
        let p = hex_of(b.drop_last());
        assert forall|k: int| 0 <= k < h.len() implies is_hex_char(#[trigger] h[k]) by {
            if k < p.len() {
                assert(h[k] == p[k]);
            } else {
                let d = if k == p.len() { (b.last() / 16) as nat } else { (b.last() % 16) as nat };
                assert(d < 16);
                assert(h[k] == hex_digit(d));
            }
        }
    }
}

/// A fingerprint has the fingerprint shape.
pub proof fn lemma_fingerprint_shaped(ts: Seq<Seq<char>>)
    requires
        sha256_of(token_bytes(ts)).len() == 32,
    ensures
        fingerprint_shaped(fingerprint(ts)),
{
    lemma_hex_of_shape(sha256_of(token_bytes(ts)).take(6));
}

/// The fingerprint of a token stream: the first six bytes of the SHA-256 of its bytes,
/// as twelve hex digits.
pub open spec fn fingerprint(ts: Seq<Seq<char>>) -> Seq<char> {
    hex_of(sha256_of(token_bytes(ts)).take(6))
}

fn hex_digit_exec(d: u8) -> (c: char)
    requires
        d < 16,
    ensures
        c == hex_digit(d as nat),
{
    if d == 0 { '0' } else if d == 1 { '1' } else if d == 2 { '2' } else if d == 3 { '3' } else if d == 4 { '4' }
    else if d == 5 { '5' } else if d == 6 { '6' } else if d == 7 { '7' } else if d == 8 { '8' } else if d == 9 { '9' }
    else if d == 10 { 'a' } else if d == 11 { 'b' } else if d == 12 { 'c' } else if d == 13 { 'd' } else if d == 14 { 'e' }
    else { 'f' }
}

/// The fingerprint of a token stream.
pub fn hash_tokens(tokens: &Vec<String>) -> (h: String)
    ensures
        h@ == fingerprint(tokens_view(tokens@)),
        fingerprint_shaped(h@),
{
    let mut bytes: Vec<u8> = Vec::new();
    let mut k: usize = 0;
    let ghost tv = tokens_view(tokens@);
    proof {
        assert(tv.take(0) =~= Seq::<Seq<char>>::empty());
    }
    while k < tokens.len()
        invariant
            k <= tokens@.len(),
            tv == tokens_view(tokens@),
            bytes@ == token_bytes(tv.take(k as int)),
        decreases tokens@.len() - k,
    {
        let b = tokens[k].as_str().as_bytes();
        let ghost before = bytes@;
        let mut j: usize = 0;
        while j < b.len()
            invariant
                j <= b@.len(),
                bytes@ == before + b@.take(j as int),
            decreases b@.len() - j,
        {
            bytes.push(b[j]);
            proof {
                assert(b@.take(j + 1) =~= b@.take(j as int).push(b@[j as int]));
            }
            j += 1;
        }
        bytes.push(0u8);
        proof {
            assert(b@.take(j as int) =~= b@);
            assert(tv.take(k + 1).drop_last() =~= tv.take(k as int));
            assert(tv.take(k + 1).last() == tokens@[k as int]@);
            assert(bytes@ =~= token_bytes(tv.take(k + 1)));
        }
        k += 1;
    }
    proof {
        assert(tv.take(k as int) =~= tv);
    }
    let digest = sha256(bytes.as_slice());
    let mut h = String::new();
    let mut i: usize = 0;
    let ghost d6 = digest@.take(6);
    while i < 6
        invariant
            i <= 6,
            digest@.len() == 32,
            d6 == digest@.take(6),
            h@ == hex_of(d6.take(i as int)),
        decreases 6 - i,
    {
        let byte = digest[i];
        h.push(hex_digit_exec(byte / 16));
        h.push(hex_digit_exec(byte % 16));
        proof {
            assert(d6.take(i + 1).drop_last() =~= d6.take(i as int));
            assert(d6.take(i + 1).last() == byte);
        }
        i += 1;
    }
    proof {
        assert(d6.take(6) =~= d6);
        lemma_fingerprint_shaped(tv);
    }
    h
}

/// The canonical tokens of the symbol an anchor names in a source file.
pub open spec fn spec_symbol_tokens(source: Seq<char>, lang: Lang, anchor: AnchorModel, opts: HashOpts) -> Result<Seq<Seq<char>>, ResolveErrorModel> {
    match parsed(source, lang) {
        None => Err(ResolveErrorModel::Parse),
        Some(t) => match resolve_tree(t, lang.spec_family(), anchor.segments) {
            Ok(g) => Ok(symbol_tokens(g, lang.spec_family(), opts)),
            Err(e) => Err(e),
        },
    }
}

/// The fingerprint of the symbol an anchor names.
pub open spec fn spec_hash_anchor(source: Seq<char>, lang: Lang, anchor: AnchorModel, opts: HashOpts) -> Result<Seq<char>, ResolveErrorModel> {
    match spec_symbol_tokens(source, lang, anchor, opts) {
        Ok(ts) => Ok(fingerprint(ts)),
        Err(e) => Err(e),
    }
}

/// The canonical tokens of the symbol an anchor names.
pub fn anchor_tokens(source: &str, lang: Lang, anchor: &Anchor, opts: HashOpts) -> (r: Result<Vec<String>, ResolveError>)
    requires
        anchor_ok(anchor@),
    ensures
        match r {
            Ok(ts) => spec_symbol_tokens(source@, lang, anchor@, opts) == Ok::<Seq<Seq<char>>, ResolveErrorModel>(tokens_view(ts@)),
            Err(e) => spec_symbol_tokens(source@, lang, anchor@, opts) == Err::<Seq<Seq<char>>, ResolveErrorModel>(e@),
        },
{
    let tree = match parse_tree(source, lang) {
        Some(t) => t,
        None => {
            return Err(ResolveError::Parse);
        },
    };
    match resolve_in(&tree, lang.family(), anchor) {
        Ok(g) => Ok(symbol_tokens_exec(&g, lang.family(), opts)),
        Err(e) => Err(e),
    }
}

/// The fingerprint of the symbol an anchor names, in the given mode.
pub fn hash_anchor_with(source: &str, lang: Lang, anchor: &Anchor, opts: HashOpts) -> (r: Result<String, ResolveError>)
    requires
        anchor_ok(anchor@),
    ensures
        match r {
            Ok(h) => spec_hash_anchor(source@, lang, anchor@, opts) == Ok::<Seq<char>, ResolveErrorModel>(h@) && fingerprint_shaped(h@),
            Err(e) => spec_hash_anchor(source@, lang, anchor@, opts) == Err::<Seq<char>, ResolveErrorModel>(e@),
        },
{
    match anchor_tokens(source, lang, anchor, opts) {
        Ok(ts) => Ok(hash_tokens(&ts)),
        Err(e) => Err(e),
    }
}

/// The fingerprint of the symbol an anchor names, in the default mode.
pub fn hash_anchor(source: &str, lang: Lang, anchor: &Anchor) -> (r: Result<String, ResolveError>)
    requires
        anchor_ok(anchor@),
    ensures
        match r {
            Ok(h) => spec_hash_anchor(source@, lang, anchor@, HashOpts { ignore_literals: false }) == Ok::<Seq<char>, ResolveErrorModel>(h@)
                && fingerprint_shaped(h@),
            Err(e) => spec_hash_anchor(source@, lang, anchor@, HashOpts { ignore_literals: false }) == Err::<Seq<char>, ResolveErrorModel>(e@),
        },
{
    hash_anchor_with(source, lang, anchor, HashOpts { ignore_literals: false })
}

/// A claim's fingerprint from its sites' fingerprints: a single site's own, otherwise the
/// fingerprint of the list of site fingerprints.
pub open spec fn combined(hashes: Seq<Seq<char>>) -> Seq<char> {
    if hashes.len() == 1 {
        hashes[0]
    } else {
        fingerprint(hashes)
    }
}

pub fn combine_site_hashes(hashes: &Vec<String>) -> (h: String)
    ensures
        h@ == combined(tokens_view(hashes@)),
        hashes@.len() != 1 ==> fingerprint_shaped(h@),
        hashes@.len() == 1 && fingerprint_shaped(hashes@[0]@) ==> fingerprint_shaped(h@),
{
    if hashes.len() == 1 {
        hashes[0].clone()
    } else {
        hash_tokens(hashes)
    }
}


pub open spec fn min3(x: nat, y: nat, z: nat) -> nat {
    let m = if x <= y { x } else { y };
    if m <= z { m } else { z }
}

/// The edit (Levenshtein) distance between two token streams: the fewest insertions,
/// deletions and substitutions of single tokens that turn one into the other.
pub open spec fn edit_distance(a: Seq<Seq<char>>, b: Seq<Seq<char>>) -> nat
    decreases a.len() + b.len(),
{
    if a.len() == 0 {
        b.len()
    } else if b.len() == 0 {
        a.len()
    } else {
        min3(
            edit_distance(a.drop_last(), b) + 1,
            edit_distance(a, b.drop_last()) + 1,
            edit_distance(a.drop_last(), b.drop_last()) + (if a.last() == b.last() { 0nat } else { 1nat }),
        )
    }
}

proof fn lemma_edit_distance_bound(a: Seq<Seq<char>>, b: Seq<Seq<char>>)
    ensures
        edit_distance(a, b) <= (if a.len() >= b.len() { a.len() } else { b.len() }),
    decreases a.len() + b.len(),
{
    if a.len() > 0 && b.len() > 0 {
        lemma_edit_distance_bound(a.drop_last(), b.drop_last());
    }
}

fn inc(x: usize) -> (r: usize)
    ensures
        r == (if x == usize::MAX { x as int } else { x + 1 }),
{
    if x == usize::MAX {
        x
    } else {
        x + 1
    }
}

fn min_usize(x: usize, y: usize) -> (r: usize)
    ensures
        r == (if x <= y { x } else { y }),
{
    if x <= y {
        x
    } else {
        y
    }
}

/// The edit distance between two token streams.
pub fn token_distance(a: &Vec<String>, b: &Vec<String>) -> (d: usize)
    ensures
        d as nat == edit_distance(tokens_view(a@), tokens_view(b@)),
{
    let ghost av = tokens_view(a@);
    let ghost bv = tokens_view(b@);
    let n = a.len();
    let m = b.len();
    if n == 0 {
        return m;
    }
    if m == 0 {
        return n;
    }
    let mut prev: Vec<usize> = Vec::new();
    prev.push(0);
    let mut j: usize = 0;
    while j < m
        invariant
            j <= m,
            m == b@.len(),
            prev@.len() == j + 1,
            forall|k: int| 0 <= k <= j ==> prev@[k] == k,
        decreases m - j,
    {
        j += 1;
        prev.push(j);
    }
    proof {
        assert forall|k: int| 0 <= k <= m implies #[trigger] prev@[k] as nat == edit_distance(av.take(0), bv.take(k)) by {
            assert(av.take(0).len() == 0);
        }
    }
    let mut curr: Vec<usize> = prev.clone();
    let mut i: usize = 0;
    while i < n
        invariant
            i <= n,
            n == a@.len(),
            m == b@.len(),
            av == tokens_view(a@),
            bv == tokens_view(b@),
            prev@.len() == m + 1,
            curr@.len() == m + 1,
            forall|k: int| 0 <= k <= m ==> #[trigger] prev@[k] as nat == edit_distance(av.take(i as int), bv.take(k)),
        decreases n - i,
    {
        let row = i + 1;
        curr.set(0, row);
        proof {
            assert(av.take(row as int).len() == row);
        }
        let mut j: usize = 0;
        while j < m
            invariant
                i < n,
                row == i + 1,
                j <= m,
                n == a@.len(),
                m == b@.len(),
                av == tokens_view(a@),
                bv == tokens_view(b@),
                prev@.len() == m + 1,
                curr@.len() == m + 1,
                forall|k: int| 0 <= k <= m ==> #[trigger] prev@[k] as nat == edit_distance(av.take(i as int), bv.take(k)),
                forall|k: int| 0 <= k <= j ==> #[trigger] curr@[k] as nat == edit_distance(av.take(row as int), bv.take(k)),
            decreases m - j,
        {
            let col = j + 1;
            let same = a[i] == b[j];
            let x = inc(prev[col]);
            let y = inc(curr[j]);
            let z = if same { prev[j] } else { inc(prev[j]) };
            let v = min_usize(min_usize(x, y), z);
            proof {
                let ai = av.take(row as int);
                let bj = bv.take(col as int);
                assert(ai.drop_last() =~= av.take(i as int));
                assert(bj.drop_last() =~= bv.take(j as int));
                assert(ai.last() == a@[i as int]@);
                assert(bj.last() == b@[j as int]@);
                lemma_edit_distance_bound(ai, bj);
                assert(prev@[col as int] as nat == edit_distance(av.take(i as int), bv.take(col as int)));
                assert(curr@[j as int] as nat == edit_distance(ai, bv.take(j as int)));
                assert(prev@[j as int] as nat == edit_distance(av.take(i as int), bv.take(j as int)));
                assert(v as nat == edit_distance(ai, bj));
            }
            curr.set(col, v);
            j += 1;
        }
        std::mem::swap(&mut prev, &mut curr);
        i += 1;
    }
    proof {
        assert(av.take(n as int) =~= av);
        assert(bv.take(m as int) =~= bv);
    }
    prev[m]
}

pub open spec fn spec_categorize(distance: nat) -> Magnitude {
    if distance <= 3 {
        Magnitude::Small
    } else if distance <= 15 {
        Magnitude::Medium
    } else {
        Magnitude::Large
    }
}

pub fn categorize(distance: usize) -> (m: Magnitude)
    ensures
        m == spec_categorize(distance as nat),
{
    if distance <= 3 {
        Magnitude::Small
    } else if distance <= 15 {
        Magnitude::Medium
    } else {
        Magnitude::Large
    }
}

/// The advisory size of the change to the symbol an anchor names between two sources.
pub open spec fn spec_diff_magnitude(old_source: Seq<char>, new_source: Seq<char>, lang: Lang, anchor: AnchorModel) -> Result<Magnitude, ResolveErrorModel> {
    let opts = HashOpts { ignore_literals: false };
    match spec_symbol_tokens(old_source, lang, anchor, opts) {
        Err(e) => Err(e),
        Ok(old) => match spec_symbol_tokens(new_source, lang, anchor, opts) {
            Err(e) => Err(e),
            Ok(new) => Ok(spec_categorize(edit_distance(old, new))),
        },
    }
}

/// Advisory only: how big the change to a span was, for triage. It never decides a verdict.
pub fn diff_magnitude(old_source: &str, new_source: &str, lang: Lang, anchor: &Anchor) -> (r: Result<Magnitude, ResolveError>)
    requires
        anchor_ok(anchor@),
    ensures
        match r {
            Ok(m) => spec_diff_magnitude(old_source@, new_source@, lang, anchor@) == Ok::<Magnitude, ResolveErrorModel>(m),
            Err(e) => spec_diff_magnitude(old_source@, new_source@, lang, anchor@) == Err::<Magnitude, ResolveErrorModel>(e@),
        },
{
    let opts = HashOpts { ignore_literals: false };
    let old = match anchor_tokens(old_source, lang, anchor, opts) {
        Ok(t) => t,
        Err(e) => {
            return Err(e);
        },
    };
    let new = match anchor_tokens(new_source, lang, anchor, opts) {
        Ok(t) => t,
        Err(e) => {
            return Err(e);
        },
    };
    Ok(categorize(token_distance(&old, &new)))
}

/// Fingerprinting fails exactly where resolving does, with the same error: a symbol that
/// resolves has a fingerprint.
pub proof fn lemma_hash_agrees_with_resolve(source: Seq<char>, lang: Lang, anchor: AnchorModel, opts: HashOpts)
    ensures
        spec_hash_anchor(source, lang, anchor, opts) is Ok <==> crate::resolve::spec_resolve(source, lang, anchor) is Ok,
        spec_hash_anchor(source, lang, anchor, opts) matches Err(e) ==> crate::resolve::spec_resolve(source, lang, anchor) == Err::<
            crate::resolve::Span,
            ResolveErrorModel,
        >(e),
        crate::resolve::spec_resolve(source, lang, anchor) matches Err(e) ==> spec_hash_anchor(source, lang, anchor, opts) == Err::<
            Seq<char>,
            ResolveErrorModel,
        >(e),
{
}

proof fn lemma_edit_distance_self(a: Seq<Seq<char>>)
    ensures
        edit_distance(a, a) == 0,
    decreases a.len(),
{
    if a.len() > 0 {
        lemma_edit_distance_self(a.drop_last());
    }
}

/// The magnitude of a change is known exactly when the anchor resolves in both sources; it
/// fails with an error of one of them otherwise; an unchanged source is a small change; and
/// the magnitude grades the token edit distance (at most 3 small, at most 15 medium, else
/// large).
pub proof fn lemma_magnitude_laws(old_source: Seq<char>, new_source: Seq<char>, lang: Lang, anchor: AnchorModel)
    ensures
        spec_diff_magnitude(old_source, new_source, lang, anchor) is Ok <==> (crate::resolve::spec_resolve(old_source, lang, anchor) is Ok
            && crate::resolve::spec_resolve(new_source, lang, anchor) is Ok),
        spec_diff_magnitude(old_source, new_source, lang, anchor) matches Err(e) ==> (crate::resolve::spec_resolve(old_source, lang, anchor)
            == Err::<crate::resolve::Span, ResolveErrorModel>(e) || crate::resolve::spec_resolve(new_source, lang, anchor) == Err::<
            crate::resolve::Span,
            ResolveErrorModel,
        >(e)),
        old_source == new_source && spec_diff_magnitude(old_source, new_source, lang, anchor) is Ok ==> spec_diff_magnitude(
            old_source,
            new_source,
            lang,
            anchor,
        ) == Ok::<Magnitude, ResolveErrorModel>(Magnitude::Small),
{
    let opts = HashOpts { ignore_literals: false };
    match spec_symbol_tokens(old_source, lang, anchor, opts) {
        Ok(t) => {
            lemma_edit_distance_self(t);
        },
        Err(_) => {},
    }
}

proof fn lemma_string_kinds_say_string(k: Seq<char>)
    requires
        is_string_literal_kind(k),
    ensures
        contains_seq(k, "string"@),
{
    reveal_strlit("string");
    reveal_strlit("string_literal");
    reveal_strlit("raw_string_literal");
    reveal_strlit("interpreted_string_literal");
    let w = "string"@;
    let i: int = if k == "string"@ || k == "string_literal"@ {
        0
    } else if k == "raw_string_literal"@ {
        4
    } else {
        12
    };
    assert(k.subrange(i, i + w.len()) =~= w);
}

/// Only string literals lose their content: a named leaf that is neither a comment, nor a
/// numbered identifier, nor of a string kind, is emitted as its kind and its text whatever
/// the mode, so with `ignore_literals` a changed number, operator or keyword still shows.
pub proof fn lemma_non_string_leaves_kept(t: Ast, family: Family, opts: HashOpts, keep: bool, st: (Seq<Seq<char>>, Seq<Seq<char>>))
    requires
        t.named,
        t.children.len() == 0,
        !contains_seq(t.kind, "comment"@),
        !contains_seq(t.kind, "string"@),
        keep || !is_identifier_kind(t.kind, family),
    ensures
        emit(t, family, opts, keep, st) == (st.0.push(t.kind + seq![':'] + node_text(t)), st.1),
{
    if is_string_literal_kind(t.kind) {
        lemma_string_kinds_say_string(t.kind);
    }
}

/// Two such leaves of one kind whose texts differ give different token streams, in either
/// mode.
pub proof fn lemma_changed_literal_changes_tokens(
    t1: Ast,
    t2: Ast,
    family: Family,
    opts: HashOpts,
    keep: bool,
    st: (Seq<Seq<char>>, Seq<Seq<char>>),
)
    requires
        t1.named && t2.named,
        t1.children.len() == 0 && t2.children.len() == 0,
        t1.kind == t2.kind,
        !contains_seq(t1.kind, "comment"@),
        !contains_seq(t1.kind, "string"@),
        keep || !is_identifier_kind(t1.kind, family),
        node_text(t1) != node_text(t2),
    ensures
        emit(t1, family, opts, keep, st).0 != emit(t2, family, opts, keep, st).0,
{
    lemma_non_string_leaves_kept(t1, family, opts, keep, st);
    lemma_non_string_leaves_kept(t2, family, opts, keep, st);
    let a = t1.kind + seq![':'] + node_text(t1);
    let b = t2.kind + seq![':'] + node_text(t2);
    if emit(t1, family, opts, keep, st).0 == emit(t2, family, opts, keep, st).0 {
        assert(st.0.push(a).last() == st.0.push(b).last());
        assert(a == b);
        let n = (t1.kind.len() + 1) as int;
        assert(node_text(t1) =~= a.skip(n));
        assert(node_text(t2) =~= b.skip(n));
    }
}

} // verus!
