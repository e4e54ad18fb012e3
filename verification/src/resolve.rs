//! Resolving an anchor to the span of the symbol it names. Resolution walks the path
//! segment by segment; each segment is matched against the definitions reachable from the
//! current scopes (looking through transparent containers), and the matched definitions'
//! bodies become the next scopes. A scope is a set of nodes, so a type and its `impl` block,
//! which share a name, are both searched. Go methods attach to their type by receiver, not by
//! nesting, and get a resolver of their own. In Python a run of `@overload` stubs and the
//! implementation that follows them count as one symbol.

use vstd::prelude::*;
use crate::text::{decimal, push_decimal};
use crate::anchor::{Anchor, Segment, AnchorModel, SegmentModel};
use crate::lang::{Family, Lang};
use crate::names::{def_name, is_transparent, scope_of, def_name_exec, transparent, scope_of_exec};
use crate::syntax::{Ast, SyntaxNode, parsed, parse_tree, child_by_field, field_text, child_by_field_exec, field_text_exec, opt_text, opt_tree};
use crate::text::text_is;

verus! {

broadcast use vstd::std_specs::vec::group_vec_axioms, vstd::seq::group_seq_axioms;

/// A matched definition and the node that stands for it in spans and fingerprints: the
/// definition itself, or the `decorated_definition` around a decorated Python def.
pub struct Match {
    pub def: Ast,
    pub outer: Ast,
}

pub open spec fn widen(c: Ast, parent: Ast, family: Family) -> Ast {
    if family == Family::Python && (c.kind == "function_definition"@ || c.kind == "class_definition"@)
        && parent.kind == "decorated_definition"@ {
        parent
    } else {
        c
    }
}

/// The definitions named `name` directly in `scope`, looking through transparent children.
pub open spec fn collect_matching(scope: Ast, family: Family, name: Seq<char>) -> Seq<Match>
    decreases scope, 0int,
{
    collect_prefix(scope.children, scope, family, name, scope.children.len() as int)
}

/// `collect_matching` over the first `k` children.
pub open spec fn collect_prefix(cs: Seq<Ast>, parent: Ast, family: Family, name: Seq<char>, k: int) -> Seq<Match>
    decreases cs, k,
{
    if k <= 0 || k > cs.len() {
        Seq::empty()
    } else {
        let before = collect_prefix(cs, parent, family, name, k - 1);
        let c = cs[k - 1];
        if !c.named {
            before
        } else {
            match def_name(c, family) {
                Some(n) => if n == name {
                    before.push(Match { def: c, outer: widen(c, parent, family) })
                } else {
                    before
                },
                None => if is_transparent(c.kind, family) {
                    before + collect_matching(c, family, name)
                } else {
                    before
                },
            }
        }
    }
}

pub open spec fn match_view<'a>(m: (&'a SyntaxNode, &'a SyntaxNode)) -> Match {
    Match { def: m.0@, outer: m.1@ }
}

pub open spec fn matches_view<'a>(ms: Seq<(&'a SyntaxNode, &'a SyntaxNode)>) -> Seq<Match> {
    ms.map_values(|m: (&'a SyntaxNode, &'a SyntaxNode)| match_view(m))
}

proof fn lemma_matches_push<'a>(ms: Seq<(&'a SyntaxNode, &'a SyntaxNode)>, m: (&'a SyntaxNode, &'a SyntaxNode))
    ensures
        matches_view(ms.push(m)) =~= matches_view(ms).push(match_view(m)),
{
}

fn collect_matching_exec<'a>(
    scope: &'a SyntaxNode,
    family: Family,
    name: &String,
    out: &mut Vec<(&'a SyntaxNode, &'a SyntaxNode)>,
)
    ensures
        matches_view(final(out)@) =~= matches_view(old(out)@) + collect_matching(scope@, family, name@),
    decreases scope,
{
    let ghost start = old(out)@;
    let mut i: usize = 0;
    proof {
        assert(matches_view(out@) + collect_prefix(scope@.children, scope@, family, name@, 0) =~= matches_view(out@));
    }
    while i < scope.children.len()
        invariant
            i <= scope.children@.len(),
            scope@.children.len() == scope.children@.len(),
            matches_view(out@) =~= matches_view(start) + collect_prefix(scope@.children, scope@, family, name@, i as int),
        decreases scope.children@.len() - i,
    {
        let c = &scope.children[i];
        proof {
            assert(scope@.children[i as int] == c@);
        }
        if c.named {
            match def_name_exec(c, family) {
                Some(n) => {
                    if *n == *name {
                        let outer = if family == Family::Python && (text_is(&c.kind, "function_definition") || text_is(
                            &c.kind,
                            "class_definition",
                        )) && text_is(&scope.kind, "decorated_definition") {
                            scope
                        } else {
                            c
                        };
                        proof {
                            lemma_matches_push(out@, (c, outer));
                        }
                        out.push((c, outer));
                    }
                },
                None => {
                    if transparent(&c.kind, family) {
                        let ghost before = out@;
                        collect_matching_exec(c, family, name, out);
                        proof {
                            assert(matches_view(start) + collect_prefix(scope@.children, scope@, family, name@, i as int)
                                + collect_matching(c@, family, name@) =~= matches_view(start) + collect_prefix(
                                scope@.children,
                                scope@,
                                family,
                                name@,
                                i + 1,
                            ));
                        }
                    }
                },
            }
        }
        i += 1;
    }
}


pub open spec fn is_overload_decorator(c: Ast) -> bool {
    c.kind == "decorator"@ && (c.text == Some("@overload"@) || c.text == Some("@typing.overload"@))
}

/// A Python `@overload` stub: a definition decorated with `@overload`.
pub open spec fn is_overload_stub(m: Match) -> bool {
    m.outer.kind == "decorated_definition"@ && exists|i: int|
        0 <= i < m.outer.children.len() && is_overload_decorator(#[trigger] m.outer.children[i])
}

/// Python symbols: each run of `@overload` stubs joins the definition that follows it.
pub open spec fn group_overloads(ms: Seq<Match>, pending: Seq<Match>) -> Seq<Seq<Match>>
    decreases ms.len(),
{
    if ms.len() == 0 {
        if pending.len() == 0 {
            Seq::empty()
        } else {
            seq![pending]
        }
    } else if is_overload_stub(ms[0]) {
        group_overloads(ms.drop_first(), pending.push(ms[0]))
    } else {
        seq![pending.push(ms[0])] + group_overloads(ms.drop_first(), Seq::empty())
    }
}

/// The symbols among a list of matches: one per match, except Python overload groups.
pub open spec fn groups(ms: Seq<Match>, family: Family) -> Seq<Seq<Match>> {
    if family == Family::Python {
        group_overloads(ms, Seq::empty())
    } else {
        ms.map_values(|m: Match| seq![m])
    }
}

/// A segment's positional rule: `@k` keeps the k-th candidate (if any), no index keeps all.
pub open spec fn select<A>(cands: Seq<A>, index: Option<nat>) -> Seq<A> {
    match index {
        Some(k) => if 1 <= k <= cands.len() {
            seq![cands[k - 1]]
        } else {
            Seq::empty()
        },
        None => cands,
    }
}

pub open spec fn groups_view<'a>(gs: Seq<Vec<(&'a SyntaxNode, &'a SyntaxNode)>>) -> Seq<Seq<Match>> {
    gs.map_values(|g: Vec<(&'a SyntaxNode, &'a SyntaxNode)>| matches_view(g@))
}

fn overload_stub<'a>(m: (&'a SyntaxNode, &'a SyntaxNode)) -> (b: bool)
    ensures
        b == is_overload_stub(match_view(m)),
{
    let outer = m.1;
    if !text_is(&outer.kind, "decorated_definition") {
        return false;
    }
    let mut i: usize = 0;
    while i < outer.children.len()
        invariant
            outer == m.1,
            outer@.kind == "decorated_definition"@,
            i <= outer.children@.len(),
            outer@.children.len() == outer.children@.len(),
            forall|k: int| 0 <= k < i ==> !is_overload_decorator(#[trigger] outer@.children[k]),
        decreases outer.children@.len() - i,
    {
        let c = &outer.children[i];
        proof {
            assert(outer@.children[i as int] == c@);
        }
        let hit = text_is(&c.kind, "decorator") && match &c.text {
            Some(t) => text_is(t, "@overload") || text_is(t, "@typing.overload"),
            None => false,
        };
        if hit {
            proof {
                assert(is_overload_decorator(match_view(m).outer.children[i as int]));
            }
            return true;
        }
        i += 1;
    }
    false
}

fn groups_exec<'a>(ms: &Vec<(&'a SyntaxNode, &'a SyntaxNode)>, family: Family) -> (r: Vec<Vec<(&'a SyntaxNode, &'a SyntaxNode)>>)
    ensures
        groups_view(r@) =~= groups(matches_view(ms@), family),
{
    let ghost mv = matches_view(ms@);
    let mut out: Vec<Vec<(&'a SyntaxNode, &'a SyntaxNode)>> = Vec::new();
    let mut i: usize = 0;
    if family == Family::Python {
        let mut pending: Vec<(&'a SyntaxNode, &'a SyntaxNode)> = Vec::new();
        proof {
            assert(mv.skip(0) =~= mv);
            assert(matches_view(pending@) =~= Seq::<Match>::empty());
            assert(groups_view(out@) + group_overloads(mv, Seq::empty()) =~= group_overloads(mv, Seq::empty()));
        }
        while i < ms.len()
            invariant
                i <= ms@.len(),
                mv == matches_view(ms@),
                family == Family::Python,
                group_overloads(mv, Seq::empty()) =~= groups_view(out@) + group_overloads(mv.skip(i as int), matches_view(pending@)),
            decreases ms@.len() - i,
        {
            let m = ms[i];
            proof {
                assert(mv.skip(i as int)[0] == match_view(m));
                assert(mv.skip(i as int).drop_first() =~= mv.skip(i + 1));
                lemma_matches_push(pending@, m);
            }
            if overload_stub(m) {
                pending.push(m);
            } else {
                pending.push(m);
                proof {
                    assert(groups_view(out@.push(pending)) =~= groups_view(out@).push(matches_view(pending@)));
                }
                out.push(pending);
                pending = Vec::new();
                proof {
                    assert(matches_view(pending@) =~= Seq::<Match>::empty());
                }
            }
            i += 1;
        }
        proof {
            assert(mv.skip(i as int) =~= Seq::<Match>::empty());
        }
        if pending.len() > 0 {
            proof {
                assert(groups_view(out@.push(pending)) =~= groups_view(out@).push(matches_view(pending@)));
            }
            out.push(pending);
        }
    } else {
        while i < ms.len()
            invariant
                i <= ms@.len(),
                mv == matches_view(ms@),
                groups_view(out@) =~= mv.take(i as int).map_values(|m: Match| seq![m]),
            decreases ms@.len() - i,
        {
            let m = ms[i];
            let mut g: Vec<(&'a SyntaxNode, &'a SyntaxNode)> = Vec::new();
            g.push(m);
            proof {
                assert(matches_view(g@) =~= seq![match_view(m)]);
                assert(groups_view(out@.push(g)) =~= groups_view(out@).push(matches_view(g@)));
                assert(mv.take(i + 1) =~= mv.take(i as int).push(match_view(m)));
            }
            out.push(g);
            i += 1;
        }
        proof {
            assert(mv.take(i as int) =~= mv);
        }
    }
    out
}

fn select_exec<T>(cands: Vec<T>, index: Option<usize>) -> (r: Vec<T>)
    ensures
        r@ == select(cands@, match index { Some(k) => Some(k as nat), None => None }),
{
    match index {
        Some(k) => {
            let mut cands = cands;
            let ghost c0 = cands@;
            if 1 <= k && k <= cands.len() {
                let x = cands.swap_remove(k - 1);
                let mut r = Vec::new();
                r.push(x);
                proof {
                    assert(r@ =~= seq![c0[k - 1]]);
                }
                r
            } else {
                Vec::new()
            }
        },
        None => cands,
    }
}


#[derive(Debug, Clone, PartialEq, Eq)]
pub enum ResolveError {
    Parse,
    NotFound { segment: String },
    Ambiguous { segment: String, count: usize },
}

pub enum ResolveErrorModel {
    Parse,
    NotFound(Seq<char>),
    Ambiguous(Seq<char>, nat),
}

impl View for ResolveError {
    type V = ResolveErrorModel;

    open spec fn view(&self) -> ResolveErrorModel {
        match self {
            ResolveError::Parse => ResolveErrorModel::Parse,
            ResolveError::NotFound { segment } => ResolveErrorModel::NotFound(segment@),
            ResolveError::Ambiguous { segment, count } => ResolveErrorModel::Ambiguous(segment@, *count as nat),
        }
    }
}

/// The message for an anchor that does not resolve.
pub open spec fn resolve_error_text(e: ResolveErrorModel) -> Seq<char> {
    match e {
        ResolveErrorModel::Parse => "source could not be parsed"@,
        ResolveErrorModel::NotFound(segment) => "no symbol `"@ + segment + "` found at this path"@,
        ResolveErrorModel::Ambiguous(segment, count) => "`"@ + segment + "` is ambiguous ("@ + decimal(count) + " matches); disambiguate with `@N`"@,
    }
}

impl ResolveError {
    /// The message shown to a user.
    pub fn message(&self) -> (m: String)
        ensures
            m@ == resolve_error_text(self@),
    {
        match self {
            ResolveError::Parse => "source could not be parsed".to_owned(),
            ResolveError::NotFound { segment } => {
                let mut m = "no symbol `".to_owned();
                m.push_str(segment.as_str());
                m.push_str("` found at this path");
                m
            },
            ResolveError::Ambiguous { segment, count } => {
                let mut m = "`".to_owned();
                m.push_str(segment.as_str());
                m.push_str("` is ambiguous (");
                push_decimal(&mut m, *count);
                m.push_str(" matches); disambiguate with `@N`");
                m
            },
        }
    }
}

/// The byte and (1-based) line extent of a resolved symbol.
#[derive(Debug, Clone, Copy, PartialEq, Eq, Structural)]
pub struct Span {
    pub start_byte: usize,
    pub end_byte: usize,
    pub start_line: usize,
    pub end_line: usize,
}

/// An anchor that resolution accepts: at least one segment, and no `@0`.
pub open spec fn anchor_ok(a: AnchorModel) -> bool {
    a.segments.len() > 0 && forall|i: int| 0 <= i < a.segments.len() ==> (#[trigger] a.segments[i]).index != Some(0nat)
}

pub open spec fn collect_scopes(scopes: Seq<Ast>, family: Family, name: Seq<char>) -> Seq<Match>
    decreases scopes.len(),
{
    if scopes.len() == 0 {
        Seq::empty()
    } else {
        collect_scopes(scopes.drop_last(), family, name) + collect_matching(scopes.last(), family, name)
    }
}

pub open spec fn member_scopes(g: Seq<Match>, family: Family) -> Seq<Ast> {
    g.map_values(|m: Match| scope_of(m.def, family))
}

pub open spec fn next_scopes(sel: Seq<Seq<Match>>, family: Family) -> Seq<Ast>
    decreases sel.len(),
{
    if sel.len() == 0 {
        Seq::empty()
    } else {
        next_scopes(sel.drop_last(), family) + member_scopes(sel.last(), family)
    }
}

/// The scope walk: the last segment must select exactly one symbol; earlier segments may
/// select several, whose bodies are all searched for the next segment.
pub open spec fn resolve_scopes(scopes: Seq<Ast>, segs: Seq<SegmentModel>, family: Family) -> Result<Seq<Match>, ResolveErrorModel>
    decreases segs.len(),
{
    if segs.len() == 0 {
        Err(ResolveErrorModel::NotFound(Seq::empty()))
    } else {
        let seg = segs[0];
        let sel = select(groups(collect_scopes(scopes, family, seg.name), family), seg.index);
        if sel.len() == 0 {
            Err(ResolveErrorModel::NotFound(seg.name))
        } else if segs.len() == 1 {
            if sel.len() == 1 {
                Ok(sel[0])
            } else {
                Err(ResolveErrorModel::Ambiguous(seg.name, sel.len()))
            }
        } else {
            resolve_scopes(next_scopes(sel, family), segs.drop_first(), family)
        }
    }
}

pub open spec fn scopes_view<'a>(scopes: Seq<&'a SyntaxNode>) -> Seq<Ast> {
    scopes.map_values(|n: &'a SyntaxNode| n@)
}

pub open spec fn segments_view(segs: Seq<Segment>) -> Seq<SegmentModel> {
    segs.map_values(|s: Segment| s@)
}

fn collect_scopes_exec<'a>(scopes: &Vec<&'a SyntaxNode>, family: Family, name: &String) -> (r: Vec<(&'a SyntaxNode, &'a SyntaxNode)>)
    ensures
        matches_view(r@) =~= collect_scopes(scopes_view(scopes@), family, name@),
{
    let mut out: Vec<(&'a SyntaxNode, &'a SyntaxNode)> = Vec::new();
    let mut k: usize = 0;
    proof {
        assert(scopes_view(scopes@).take(0) =~= Seq::<Ast>::empty());
    }
    while k < scopes.len()
        invariant
            k <= scopes@.len(),
            matches_view(out@) =~= collect_scopes(scopes_view(scopes@).take(k as int), family, name@),
        decreases scopes@.len() - k,
    {
        collect_matching_exec(scopes[k], family, name, &mut out);
        proof {
            let sv = scopes_view(scopes@);
            assert(sv.take(k + 1).drop_last() =~= sv.take(k as int));
            assert(sv.take(k + 1).last() == scopes@[k as int]@);
        }
        k += 1;
    }
    proof {
        assert(scopes_view(scopes@).take(k as int) =~= scopes_view(scopes@));
    }
    out
}

fn next_scopes_exec<'a>(sel: &Vec<Vec<(&'a SyntaxNode, &'a SyntaxNode)>>, family: Family) -> (r: Vec<&'a SyntaxNode>)
    ensures
        scopes_view(r@) =~= next_scopes(groups_view(sel@), family),
{
    let mut out: Vec<&'a SyntaxNode> = Vec::new();
    let mut k: usize = 0;
    proof {
        assert(groups_view(sel@).take(0) =~= Seq::<Seq<Match>>::empty());
    }
    while k < sel.len()
        invariant
            k <= sel@.len(),
            scopes_view(out@) =~= next_scopes(groups_view(sel@).take(k as int), family),
        decreases sel@.len() - k,
    {
        let g = &sel[k];
        let ghost before = scopes_view(out@);
        let mut j: usize = 0;
        while j < g.len()
            invariant
                j <= g@.len(),
                scopes_view(out@) =~= before + member_scopes(matches_view(g@).take(j as int), family),
            decreases g@.len() - j,
        {
            let s = scope_of_exec(g[j].0, family);
            proof {
                assert(scopes_view(out@.push(s)) =~= scopes_view(out@).push(s@));
                assert(member_scopes(matches_view(g@).take(j + 1), family) =~= member_scopes(matches_view(g@).take(j as int), family).push(scope_of(g@[j as int].0@, family)));
            }
            out.push(s);
            j += 1;
        }
        proof {
            let gv = groups_view(sel@);
            assert(matches_view(g@).take(j as int) =~= matches_view(g@));
            assert(gv.take(k + 1).drop_last() =~= gv.take(k as int));
            assert(gv.take(k + 1).last() == matches_view(g@));
        }
        k += 1;
    }
    proof {
        assert(groups_view(sel@).take(k as int) =~= groups_view(sel@));
    }
    out
}

fn resolve_scopes_exec<'a>(root: &'a SyntaxNode, family: Family, segs: &Vec<Segment>) -> (r: Result<Vec<(&'a SyntaxNode, &'a SyntaxNode)>, ResolveError>)
    requires
        segs@.len() > 0,
    ensures
        match r {
            Ok(g) => resolve_scopes(seq![root@], segments_view(segs@), family) == Ok::<Seq<Match>, ResolveErrorModel>(matches_view(g@)),
            Err(e) => resolve_scopes(seq![root@], segments_view(segs@), family) == Err::<Seq<Match>, ResolveErrorModel>(e@),
        },
{
    let ghost sv = segments_view(segs@);
    let mut scopes: Vec<&'a SyntaxNode> = Vec::new();
    scopes.push(root);
    let mut i: usize = 0;
    proof {
        assert(scopes_view(scopes@) =~= seq![root@]);
        assert(sv.skip(0) =~= sv);
    }
    loop
        invariant
            i < segs@.len(),
            sv == segments_view(segs@),
            resolve_scopes(seq![root@], sv, family) == resolve_scopes(scopes_view(scopes@), sv.skip(i as int), family),
        decreases segs@.len() - i,
    {
        let seg = &segs[i];
        let ms = collect_scopes_exec(&scopes, family, &seg.name);
        let gs = groups_exec(&ms, family);
        let sel = select_exec(gs, seg.index);
        proof {
            assert(sv.skip(i as int)[0] == seg@);
            assert(groups_view(sel@) =~= select(groups_view(gs@), seg@.index));
        }
        if sel.len() == 0 {
            return Err(ResolveError::NotFound { segment: seg.name.clone() });
        }
        if i == segs.len() - 1 {
            if sel.len() == 1 {
                let mut sel = sel;
                let g = sel.swap_remove(0);
                return Ok(g);
            } else {
                return Err(ResolveError::Ambiguous { segment: seg.name.clone(), count: sel.len() });
            }
        }
        let next = next_scopes_exec(&sel, family);
        proof {
            assert(sv.skip(i as int).drop_first() =~= sv.skip(i + 1));
        }
        scopes = next;
        i += 1;
    }
}


pub open spec fn is_go_top_def(k: Seq<char>) -> bool {
    k == "function_declaration"@ || k == "type_spec"@ || k == "const_spec"@ || k == "var_spec"@
}

pub open spec fn is_go_group(k: Seq<char>) -> bool {
    k == "type_declaration"@ || k == "const_declaration"@ || k == "var_declaration"@
}

/// Go top-level functions, types, constants and variables named `name` (methods excluded).
pub open spec fn go_top_level(node: Ast, name: Seq<char>) -> Seq<Ast>
    decreases node, 0int,
{
    go_top_prefix(node.children, name, node.children.len() as int)
}

pub open spec fn go_top_prefix(cs: Seq<Ast>, name: Seq<char>, k: int) -> Seq<Ast>
    decreases cs, k,
{
    if k <= 0 || k > cs.len() {
        Seq::empty()
    } else {
        let before = go_top_prefix(cs, name, k - 1);
        let c = cs[k - 1];
        if !c.named {
            before
        } else if is_go_top_def(c.kind) {
            if field_text(c, "name"@) == Some(name) {
                before.push(c)
            } else {
                before
            }
        } else if is_go_group(c.kind) {
            before + go_top_level(c, name)
        } else {
            before
        }
    }
}

/// The type name a Go receiver type denotes: `T`, `*T` and `T[...]` all give `T`.
pub open spec fn go_type_name(ty: Ast) -> Option<Seq<char>>
    decreases ty, 0int,
{
    if ty.kind == "type_identifier"@ {
        ty.text
    } else if ty.kind == "pointer_type"@ || ty.kind == "generic_type"@ {
        go_first_type(ty.children, 0)
    } else {
        None
    }
}

/// The first type name among the named nodes `cs[i..]`.
pub open spec fn go_first_type(cs: Seq<Ast>, i: int) -> Option<Seq<char>>
    decreases cs, cs.len() - i,
{
    if i < 0 || i >= cs.len() {
        None
    } else if cs[i].named && go_type_name(cs[i]) is Some {
        go_type_name(cs[i])
    } else {
        go_first_type(cs, i + 1)
    }
}

pub open spec fn is_param_decl(c: Ast) -> bool {
    c.named && c.kind == "parameter_declaration"@
}

/// The type a Go method's receiver names.
pub open spec fn go_receiver_type(m: Ast) -> Option<Seq<char>> {
    match child_by_field(m, "receiver"@) {
        Some(r) => match crate::text::first_where(r.children, |c: Ast| is_param_decl(c)) {
            Some(i) => match child_by_field(r.children[i], "type"@) {
                Some(t) => go_type_name(t),
                None => None,
            },
            None => None,
        },
        None => None,
    }
}

/// The methods declared at top level whose receiver is `ty_name`, with their names.
pub open spec fn go_methods(cs: Seq<Ast>, ty_name: Seq<char>, k: int) -> Seq<(Seq<char>, Ast)>
    decreases k,
{
    if k <= 0 || k > cs.len() {
        Seq::empty()
    } else {
        let before = go_methods(cs, ty_name, k - 1);
        let c = cs[k - 1];
        if c.named && c.kind == "method_declaration"@ && go_receiver_type(c) == Some(ty_name) {
            match field_text(c, "name"@) {
                Some(n) => before.push((n, c)),
                None => before,
            }
        } else {
            before
        }
    }
}

pub open spec fn methods_named(ms: Seq<(Seq<char>, Ast)>, name: Seq<char>) -> Seq<Ast>
    decreases ms.len(),
{
    if ms.len() == 0 {
        Seq::empty()
    } else if ms.last().0 == name {
        methods_named(ms.drop_last(), name).push(ms.last().1)
    } else {
        methods_named(ms.drop_last(), name)
    }
}

/// A segment's rule applied to candidates: exactly one must remain.
pub open spec fn pick(cands: Seq<Ast>, seg: SegmentModel) -> Result<Seq<Match>, ResolveErrorModel> {
    let sel = select(cands, seg.index);
    if sel.len() == 0 {
        Err(ResolveErrorModel::NotFound(seg.name))
    } else if sel.len() == 1 {
        Ok(seq![Match { def: sel[0], outer: sel[0] }])
    } else {
        Err(ResolveErrorModel::Ambiguous(seg.name, sel.len()))
    }
}

/// Go: `file.go > Name` for a top-level declaration, `file.go > Type > Method` for a method.
pub open spec fn resolve_go(root: Ast, segs: Seq<SegmentModel>) -> Result<Seq<Match>, ResolveErrorModel> {
    if segs.len() == 1 {
        pick(go_top_level(root, segs[0].name), segs[0])
    } else if segs.len() == 2 {
        pick(methods_named(go_methods(root.children, segs[0].name, root.children.len() as int), segs[1].name), segs[1])
    } else if segs.len() > 2 {
        Err(ResolveErrorModel::NotFound(segs.last().name))
    } else {
        Err(ResolveErrorModel::NotFound(Seq::empty()))
    }
}

/// The symbol an anchor's segments name in a tree.
pub open spec fn resolve_tree(root: Ast, family: Family, segs: Seq<SegmentModel>) -> Result<Seq<Match>, ResolveErrorModel> {
    if family == Family::Go {
        resolve_go(root, segs)
    } else {
        resolve_scopes(seq![root], segs, family)
    }
}

pub open spec fn line_of(row: nat) -> usize {
    if row < usize::MAX {
        (row + 1) as usize
    } else {
        row as usize
    }
}

/// The span of a symbol: from the start of its first node to the end of its last.
pub open spec fn span_of(g: Seq<Match>) -> Span {
    Span {
        start_byte: g[0].outer.start_byte as usize,
        end_byte: g.last().outer.end_byte as usize,
        start_line: line_of(g[0].outer.start_row),
        end_line: line_of(g.last().outer.end_row),
    }
}

/// What `resolve` answers for a source, a language and an anchor.
pub open spec fn spec_resolve(source: Seq<char>, lang: Lang, anchor: AnchorModel) -> Result<Span, ResolveErrorModel> {
    match parsed(source, lang) {
        None => Err(ResolveErrorModel::Parse),
        Some(t) => match resolve_tree(t, lang.spec_family(), anchor.segments) {
            Ok(g) => Ok(span_of(g)),
            Err(e) => Err(e),
        },
    }
}

/// A trait is a definition, and so is a method in its body: in a Rust source whose item is
/// one trait holding one method, the anchor naming the trait resolves to the trait, and the
/// anchor `Trait > method` resolves to the method.
pub proof fn lemma_rust_trait_method_resolves(root: Ast, tr: Ast, body: Ast, m: Ast, trait_name: Seq<char>, method_name: Seq<char>)
    requires
        root.children == seq![tr],
        tr.named,
        tr.kind == "trait_item"@,
        field_text(tr, "name"@) == Some(trait_name),
        child_by_field(tr, "body"@) == Some(body),
        body.children == seq![m],
        m.named,
        m.kind == "function_item"@,
        field_text(m, "name"@) == Some(method_name),
    ensures
        resolve_tree(root, Family::Rust, seq![SegmentModel { name: trait_name, index: None }]) == Ok::<Seq<Match>, ResolveErrorModel>(
            seq![Match { def: tr, outer: tr }],
        ),
        resolve_tree(
            root,
            Family::Rust,
            seq![SegmentModel { name: trait_name, index: None }, SegmentModel { name: method_name, index: None }],
        ) == Ok::<Seq<Match>, ResolveErrorModel>(seq![Match { def: m, outer: m }]),
{
    let family = Family::Rust;
    let mt = Match { def: tr, outer: tr };
    let mm = Match { def: m, outer: m };
    assert(def_name(tr, family) == Some(trait_name));
    assert(collect_prefix(root.children, root, family, trait_name, 0) == Seq::<Match>::empty());
    assert(collect_prefix(root.children, root, family, trait_name, 1) == seq![mt]);
    assert(collect_matching(root, family, trait_name) == seq![mt]);
    assert(collect_scopes(seq![root], family, trait_name) =~= seq![mt]) by {
        assert(seq![root].drop_last() =~= Seq::<Ast>::empty());
        assert(collect_scopes(Seq::<Ast>::empty(), family, trait_name) == Seq::<Match>::empty());
        assert(seq![root].last() == root);
    }
    let gt = groups(seq![mt], family);
    assert(gt =~= seq![seq![mt]]);
    assert(select(gt, None) == gt);
    assert(scope_of(tr, family) == body);
    assert(member_scopes(seq![mt], family) =~= seq![body]);
    assert(next_scopes(gt, family) =~= seq![body]) by {
        assert(gt.drop_last() =~= Seq::<Seq<Match>>::empty());
        assert(next_scopes(Seq::<Seq<Match>>::empty(), family) == Seq::<Ast>::empty());
        assert(gt.last() == seq![mt]);
    }
    assert(def_name(m, family) == Some(method_name));
    assert(collect_prefix(body.children, body, family, method_name, 0) == Seq::<Match>::empty());
    assert(collect_prefix(body.children, body, family, method_name, 1) == seq![mm]);
    assert(collect_matching(body, family, method_name) == seq![mm]);
    assert(collect_scopes(seq![body], family, method_name) =~= seq![mm]) by {
        assert(seq![body].drop_last() =~= Seq::<Ast>::empty());
        assert(collect_scopes(Seq::<Ast>::empty(), family, method_name) == Seq::<Match>::empty());
        assert(seq![body].last() == body);
    }
    let gm = groups(seq![mm], family);
    assert(gm =~= seq![seq![mm]]);
    let segs = seq![SegmentModel { name: trait_name, index: None }, SegmentModel { name: method_name, index: None }];
    let rest = seq![SegmentModel { name: method_name, index: None }];
    assert(segs.drop_first() =~= rest);
    assert(select(gm, None) == gm);
    assert(rest[0].name == method_name && rest[0].index is None);
    assert(resolve_scopes(seq![body], rest, family) == Ok::<Seq<Match>, ResolveErrorModel>(seq![mm]));
    assert(segs[0].name == trait_name && segs[0].index is None && segs.len() == 2);
    assert(resolve_scopes(seq![root], segs, family) == resolve_scopes(seq![body], rest, family));
}

fn go_top_level_exec<'a>(node: &'a SyntaxNode, name: &String, out: &mut Vec<&'a SyntaxNode>)
    ensures
        scopes_view(final(out)@) =~= scopes_view(old(out)@) + go_top_level(node@, name@),
    decreases node,
{
    let ghost start = old(out)@;
    let mut i: usize = 0;
    proof {
        assert(scopes_view(out@) + go_top_prefix(node@.children, name@, 0) =~= scopes_view(out@));
    }
    while i < node.children.len()
        invariant
            i <= node.children@.len(),
            node@.children.len() == node.children@.len(),
            scopes_view(out@) =~= scopes_view(start) + go_top_prefix(node@.children, name@, i as int),
        decreases node.children@.len() - i,
    {
        let c = &node.children[i];
        proof {
            assert(node@.children[i as int] == c@);
        }
        if c.named {
            let k = &c.kind;
            if text_is(k, "function_declaration") || text_is(k, "type_spec") || text_is(k, "const_spec") || text_is(k, "var_spec") {
                let hit = match field_text_exec(c, "name") {
                    Some(t) => *t == *name,
                    None => false,
                };
                if hit {
                    proof {
                        assert(scopes_view(out@.push(c)) =~= scopes_view(out@).push(c@));
                    }
                    out.push(c);
                }
            } else if text_is(k, "type_declaration") || text_is(k, "const_declaration") || text_is(k, "var_declaration") {
                go_top_level_exec(c, name, out);
            }
        }
        i += 1;
    }
}

fn go_type_name_exec<'a>(ty: &'a SyntaxNode) -> (r: Option<&'a String>)
    ensures
        opt_text(r) == go_type_name(ty@),
    decreases ty,
{
    if text_is(&ty.kind, "type_identifier") {
        ty.text.as_ref()
    } else if text_is(&ty.kind, "pointer_type") || text_is(&ty.kind, "generic_type") {
        let mut i: usize = 0;
        while i < ty.children.len()
            invariant
                i <= ty.children@.len(),
                ty@.children.len() == ty.children@.len(),
                go_type_name(ty@) == go_first_type(ty@.children, i as int),
            decreases ty.children@.len() - i,
        {
            let c = &ty.children[i];
            proof {
                assert(ty@.children[i as int] == c@);
            }
            if c.named {
                match go_type_name_exec(c) {
                    Some(t) => {
                        return Some(t);
                    },
                    None => {},
                }
            }
            i += 1;
        }
        None
    } else {
        None
    }
}

pub fn go_receiver_type_exec<'a>(m: &'a SyntaxNode) -> (r: Option<&'a String>)
    ensures
        opt_text(r) == go_receiver_type(m@),
{
    match child_by_field_exec(m, "receiver") {
        Some(r) => {
            let mut i: usize = 0;
            while i < r.children.len()
                invariant
                    i <= r.children@.len(),
                    r@.children.len() == r.children@.len(),
                    child_by_field(m@, "receiver"@) == Some(r@),
                    forall|k: int| 0 <= k < i ==> !(|c: Ast| is_param_decl(c))(#[trigger] r@.children[k]),
                decreases r.children@.len() - i,
            {
                let c = &r.children[i];
                proof {
                    assert(r@.children[i as int] == c@);
                }
                if c.named && text_is(&c.kind, "parameter_declaration") {
                    proof {
                        crate::text::lemma_first_where(r@.children, |c: Ast| is_param_decl(c), i as int);
                    }
                    return match child_by_field_exec(c, "type") {
                        Some(t) => go_type_name_exec(t),
                        None => None,
                    };
                }
                i += 1;
            }
            proof {
                crate::text::lemma_first_where(r@.children, |c: Ast| is_param_decl(c), i as int);
            }
            None
        },
        None => None,
    }
}

fn pick_exec<'a>(cands: Vec<&'a SyntaxNode>, seg: &Segment) -> (r: Result<Vec<(&'a SyntaxNode, &'a SyntaxNode)>, ResolveError>)
    ensures
        match r {
            Ok(g) => pick(scopes_view(cands@), seg@) == Ok::<Seq<Match>, ResolveErrorModel>(matches_view(g@)),
            Err(e) => pick(scopes_view(cands@), seg@) == Err::<Seq<Match>, ResolveErrorModel>(e@),
        },
{
    let ghost cv = scopes_view(cands@);
    let sel = select_exec(cands, seg.index);
    proof {
        assert(scopes_view(sel@) =~= select(cv, seg@.index));
    }
    if sel.len() == 0 {
        Err(ResolveError::NotFound { segment: seg.name.clone() })
    } else if sel.len() == 1 {
        let t = sel[0];
        let mut g: Vec<(&'a SyntaxNode, &'a SyntaxNode)> = Vec::new();
        g.push((t, t));
        proof {
            assert(matches_view(g@) =~= seq![Match { def: t@, outer: t@ }]);
        }
        Ok(g)
    } else {
        Err(ResolveError::Ambiguous { segment: seg.name.clone(), count: sel.len() })
    }
}

fn resolve_go_exec<'a>(root: &'a SyntaxNode, segs: &Vec<Segment>) -> (r: Result<Vec<(&'a SyntaxNode, &'a SyntaxNode)>, ResolveError>)
    requires
        segs@.len() > 0,
    ensures
        match r {
            Ok(g) => resolve_go(root@, segments_view(segs@)) == Ok::<Seq<Match>, ResolveErrorModel>(matches_view(g@)),
            Err(e) => resolve_go(root@, segments_view(segs@)) == Err::<Seq<Match>, ResolveErrorModel>(e@),
        },
{
    let ghost sv = segments_view(segs@);
    if segs.len() == 1 {
        let mut cands: Vec<&'a SyntaxNode> = Vec::new();
        go_top_level_exec(root, &segs[0].name, &mut cands);
        proof {
            assert(scopes_view(Seq::<&'a SyntaxNode>::empty()) =~= Seq::<Ast>::empty());
            assert(sv[0] == segs@[0]@);
        }
        pick_exec(cands, &segs[0])
    } else if segs.len() == 2 {
        let mut cands: Vec<&'a SyntaxNode> = Vec::new();
        let mut i: usize = 0;
        let tname = &segs[0].name;
        let mname = &segs[1].name;
        proof {
            assert(sv[0] == segs@[0]@);
            assert(sv[1] == segs@[1]@);
        }
        while i < root.children.len()
            invariant
                i <= root.children@.len(),
                root@.children.len() == root.children@.len(),
                scopes_view(cands@) =~= methods_named(go_methods(root@.children, tname@, i as int), mname@),
            decreases root.children@.len() - i,
        {
            let c = &root.children[i];
            proof {
                assert(root@.children[i as int] == c@);
            }
            if c.named && text_is(&c.kind, "method_declaration") {
                let same = match go_receiver_type_exec(c) {
                    Some(t) => *t == *tname,
                    None => false,
                };
                if same {
                    proof {
                        let before = go_methods(root@.children, tname@, i as int);
                        match field_text(c@, "name"@) {
                            Some(n) => { lemma_methods_named_push(before, (n, c@), mname@); },
                            None => {},
                        }
                    }
                    match field_text_exec(c, "name") {
                        Some(n) => {
                            if *n == *mname {
                                proof {
                                    assert(scopes_view(cands@.push(c)) =~= scopes_view(cands@).push(c@));
                                }
                                cands.push(c);
                            }
                        },
                        None => {},
                    }
                }
            }
            i += 1;
        }
        pick_exec(cands, &segs[1])
    } else {
        proof {
            assert(sv.last() == segs@[segs@.len() - 1]@);
        }
        Err(ResolveError::NotFound { segment: segs[segs.len() - 1].name.clone() })
    }
}

/// The symbol that an anchor's segments name in a parsed tree.
pub fn resolve_in<'a>(root: &'a SyntaxNode, family: Family, anchor: &Anchor) -> (r: Result<Vec<(&'a SyntaxNode, &'a SyntaxNode)>, ResolveError>)
    requires
        anchor_ok(anchor@),
    ensures
        match r {
            Ok(g) => resolve_tree(root@, family, anchor@.segments) == Ok::<Seq<Match>, ResolveErrorModel>(matches_view(g@)),
            Err(e) => resolve_tree(root@, family, anchor@.segments) == Err::<Seq<Match>, ResolveErrorModel>(e@),
        },
{
    if family == Family::Go {
        resolve_go_exec(root, &anchor.segments)
    } else {
        resolve_scopes_exec(root, family, &anchor.segments)
    }
}

fn line_exec(row: usize) -> (l: usize)
    ensures
        l == line_of(row as nat),
{
    if row < usize::MAX {
        row + 1
    } else {
        row
    }
}

/// Resolves an anchor to the exact span of the symbol it names.
pub fn resolve(source: &str, lang: Lang, anchor: &Anchor) -> (r: Result<Span, ResolveError>)
    requires
        anchor_ok(anchor@),
    ensures
        match r {
            Ok(s) => spec_resolve(source@, lang, anchor@) == Ok::<Span, ResolveErrorModel>(s),
            Err(e) => spec_resolve(source@, lang, anchor@) == Err::<Span, ResolveErrorModel>(e@),
        },
{
    let tree = match parse_tree(source, lang) {
        Some(t) => t,
        None => {
            return Err(ResolveError::Parse);
        },
    };
    match resolve_in(&tree, lang.family(), anchor) {
        Ok(g) => {
            if g.len() == 0 {
                proof {
                    assert(false) by {
                        lemma_resolved_nonempty(tree@, lang.spec_family(), anchor@.segments);
                    }
                }
                return Err(ResolveError::Parse);
            }
            let first = g[0].1;
            let last = g[g.len() - 1].1;
            Ok(Span {
                start_byte: first.start_byte,
                end_byte: last.end_byte,
                start_line: line_exec(first.start_row),
                end_line: line_exec(last.end_row),
            })
        },
        Err(e) => Err(e),
    }
}

proof fn lemma_methods_named_push(ms: Seq<(Seq<char>, Ast)>, x: (Seq<char>, Ast), name: Seq<char>)
    ensures
        methods_named(ms.push(x), name) == (if x.0 == name {
            methods_named(ms, name).push(x.1)
        } else {
            methods_named(ms, name)
        }),
{
    assert(ms.push(x).drop_last() =~= ms);
}

proof fn lemma_group_overloads_nonempty(ms: Seq<Match>, pending: Seq<Match>)
    ensures
        forall|i: int| 0 <= i < group_overloads(ms, pending).len() ==> (#[trigger] group_overloads(ms, pending)[i]).len() > 0,
    decreases ms.len(),
{
    if ms.len() == 0 {
        if pending.len() > 0 {
            assert(group_overloads(ms, pending) == seq![pending]);
        }
    } else {
        lemma_group_overloads_nonempty(ms.drop_first(), pending.push(ms[0]));
        lemma_group_overloads_nonempty(ms.drop_first(), Seq::empty());
        if is_overload_stub(ms[0]) {
            assert(group_overloads(ms, pending) == group_overloads(ms.drop_first(), pending.push(ms[0])));
        } else {
            let rest = group_overloads(ms.drop_first(), Seq::empty());
            assert forall|i: int| 0 <= i < group_overloads(ms, pending).len() implies (#[trigger] group_overloads(ms, pending)[i]).len() > 0 by {
                if i > 0 {
                    assert(group_overloads(ms, pending)[i] == rest[i - 1]);
                }
            }
        }
    }
}

/// A resolved symbol has at least one node.
pub proof fn lemma_resolved_nonempty(root: Ast, family: Family, segs: Seq<SegmentModel>)
    ensures
        resolve_tree(root, family, segs) matches Ok(g) ==> g.len() > 0,
{
    if family != Family::Go {
        lemma_resolve_scopes_nonempty(seq![root], segs, family);
    }
}

proof fn lemma_resolve_scopes_nonempty(scopes: Seq<Ast>, segs: Seq<SegmentModel>, family: Family)
    ensures
        resolve_scopes(scopes, segs, family) matches Ok(g) ==> g.len() > 0,
    decreases segs.len(),
{
    if segs.len() > 0 {
        let seg = segs[0];
        let ms = collect_scopes(scopes, family, seg.name);
        let gs = groups(ms, family);
        if family == Family::Python {
            lemma_group_overloads_nonempty(ms, Seq::empty());
        }
        let sel = select(gs, seg.index);
        if sel.len() > 0 && segs.len() == 1 && sel.len() == 1 {
            match seg.index {
                Some(k) => {
                    assert(sel[0] == gs[k - 1]);
                },
                None => {
                    assert(sel[0] == gs[0]);
                },
            }
        }
        if segs.len() > 1 {
            let sel2 = select(groups(collect_scopes(scopes, family, seg.name), family), seg.index);
            lemma_resolve_scopes_nonempty(next_scopes(sel2, family), segs.drop_first(), family);
        }
    }
}

/// What the last segment of an anchor decides between: the candidate symbols left once the
/// earlier segments have narrowed the scopes (`None` when an earlier segment already fails).
pub open spec fn scope_cands(scopes: Seq<Ast>, segs: Seq<SegmentModel>, family: Family) -> Option<Seq<Seq<Match>>>
    decreases segs.len(),
{
    if segs.len() == 0 {
        None
    } else {
        let seg = segs[0];
        let cands = groups(collect_scopes(scopes, family, seg.name), family);
        if segs.len() == 1 {
            Some(cands)
        } else {
            let sel = select(cands, seg.index);
            if sel.len() == 0 {
                None
            } else {
                scope_cands(next_scopes(sel, family), segs.drop_first(), family)
            }
        }
    }
}

pub open spec fn as_matches(cands: Seq<Ast>) -> Seq<Seq<Match>> {
    cands.map_values(|a: Ast| seq![Match { def: a, outer: a }])
}

/// The candidates of the last segment in a tree.
pub open spec fn last_candidates(root: Ast, family: Family, segs: Seq<SegmentModel>) -> Option<Seq<Seq<Match>>> {
    if family == Family::Go {
        if segs.len() == 1 {
            Some(as_matches(go_top_level(root, segs[0].name)))
        } else if segs.len() == 2 {
            Some(as_matches(methods_named(go_methods(root.children, segs[0].name, root.children.len() as int), segs[1].name)))
        } else {
            None
        }
    } else {
        scope_cands(seq![root], segs, family)
    }
}

/// The rule for the last segment: exactly one selected candidate resolves.
pub open spec fn last_rule(sel: Seq<Seq<Match>>, name: Seq<char>) -> Result<Seq<Match>, ResolveErrorModel> {
    if sel.len() == 0 {
        Err(ResolveErrorModel::NotFound(name))
    } else if sel.len() == 1 {
        Ok(sel[0])
    } else {
        Err(ResolveErrorModel::Ambiguous(name, sel.len()))
    }
}

/// The segments with the last one's positional index set to `index`.
pub open spec fn with_last_index(segs: Seq<SegmentModel>, index: Option<nat>) -> Seq<SegmentModel> {
    segs.update(segs.len() - 1, SegmentModel { index, ..segs.last() })
}

proof fn lemma_scopes_positional(scopes: Seq<Ast>, segs: Seq<SegmentModel>, family: Family, index: Option<nat>)
    requires
        segs.len() >= 1,
    ensures
        scope_cands(scopes, with_last_index(segs, index), family) == scope_cands(scopes, segs, family),
        resolve_scopes(scopes, with_last_index(segs, index), family) == match scope_cands(scopes, segs, family) {
            Some(c) => last_rule(select(c, index), segs.last().name),
            None => resolve_scopes(scopes, segs, family),
        },
    decreases segs.len(),
{
    let s2 = with_last_index(segs, index);
    if segs.len() == 1 {
        assert(s2[0] == SegmentModel { index, ..segs[0] });
    } else {
        assert(s2[0] == segs[0]);
        assert(s2.drop_first() =~= with_last_index(segs.drop_first(), index));
        let seg = segs[0];
        let sel = select(groups(collect_scopes(scopes, family, seg.name), family), seg.index);
        if sel.len() > 0 {
            lemma_scopes_positional(next_scopes(sel, family), segs.drop_first(), family, index);
            assert(segs.drop_first().last() == segs.last());
        }
    }
}

/// Positional selection: changing the index of an anchor's last segment leaves what it
/// chooses between unchanged. With index `k` the `k`-th candidate resolves when there is one,
/// and the segment is not found when there are fewer than `k`; with no index the single
/// candidate resolves, and several are ambiguous with their count.
pub proof fn lemma_positional_selection(root: Ast, family: Family, segs: Seq<SegmentModel>, index: Option<nat>)
    requires
        segs.len() >= 1,
    ensures
        last_candidates(root, family, with_last_index(segs, index)) == last_candidates(root, family, segs),
        match last_candidates(root, family, segs) {
            Some(c) => resolve_tree(root, family, with_last_index(segs, index)) == last_rule(select(c, index), segs.last().name)
                && resolve_tree(root, family, segs) == last_rule(select(c, segs.last().index), segs.last().name),
            None => resolve_tree(root, family, with_last_index(segs, index)) == resolve_tree(root, family, segs),
        },
{
    lemma_positional_one(root, family, segs, index);
    assert(with_last_index(segs, segs.last().index) =~= segs);
    lemma_positional_one(root, family, segs, segs.last().index);
}

proof fn lemma_positional_one(root: Ast, family: Family, segs: Seq<SegmentModel>, index: Option<nat>)
    requires
        segs.len() >= 1,
    ensures
        last_candidates(root, family, with_last_index(segs, index)) == last_candidates(root, family, segs),
        match last_candidates(root, family, segs) {
            Some(c) => resolve_tree(root, family, with_last_index(segs, index)) == last_rule(select(c, index), segs.last().name),
            None => resolve_tree(root, family, with_last_index(segs, index)) == resolve_tree(root, family, segs),
        },
{
    let s2 = with_last_index(segs, index);
    if family == Family::Go {
        let seg = SegmentModel { index, ..segs.last() };
        if segs.len() == 1 {
            let cands = go_top_level(root, segs[0].name);
            assert(s2[0] == seg);
            let sel = select(cands, index);
            let msel = select(as_matches(cands), index);
            assert(msel.len() == sel.len());
            if sel.len() == 1 {
                assert(msel[0] == seq![Match { def: sel[0], outer: sel[0] }]);
            }
        } else if segs.len() == 2 {
            let cands = methods_named(go_methods(root.children, segs[0].name, root.children.len() as int), segs[1].name);
            assert(s2[0] == segs[0]);
            assert(s2[1] == seg);
            let sel = select(cands, index);
            let msel = select(as_matches(cands), index);
            assert(msel.len() == sel.len());
            if sel.len() == 1 {
                assert(msel[0] == seq![Match { def: sel[0], outer: sel[0] }]);
            }
        } else {
            assert(s2.last() == seg);
        }
    } else {
        lemma_scopes_positional(seq![root], segs, family, index);
    }
}

proof fn lemma_no_scope_cands(scopes: Seq<Ast>, segs: Seq<SegmentModel>, family: Family)
    requires
        segs.len() >= 1,
        scope_cands(scopes, segs, family) is None,
    ensures
        resolve_scopes(scopes, segs, family) is Err,
        resolve_scopes(scopes, segs, family)->Err_0 is NotFound,
    decreases segs.len(),
{
    if segs.len() > 1 {
        let seg = segs[0];
        let sel = select(groups(collect_scopes(scopes, family, seg.name), family), seg.index);
        if sel.len() > 0 {
            lemma_no_scope_cands(next_scopes(sel, family), segs.drop_first(), family);
        }
    }
}

/// The anchor with its last segment's positional index set to `index`.
pub open spec fn with_index(anchor: AnchorModel, index: Option<nat>) -> AnchorModel {
    AnchorModel { segments: with_last_index(anchor.segments, index), ..anchor }
}

/// Positional selection, for a source: when the last segment of an anchor without an index
/// resolves (one candidate) or is ambiguous among `n` candidates, `@k` resolves for
/// `1 <= k <= n`, to the `k`-th candidate, and is not found for `k > n`.
pub proof fn lemma_positional_resolve(source: Seq<char>, lang: Lang, anchor: AnchorModel, k: nat)
    requires
        anchor.segments.len() >= 1,
        anchor.segments.last().index is None,
        k >= 1,
    ensures
        spec_resolve(source, lang, anchor) is Ok ==> (k == 1 ==> spec_resolve(source, lang, with_index(anchor, Some(k)))
            == spec_resolve(source, lang, anchor)) && (k > 1 ==> spec_resolve(source, lang, with_index(anchor, Some(k))) == Err::<
            Span,
            ResolveErrorModel,
        >(ResolveErrorModel::NotFound(anchor.segments.last().name))),
        spec_resolve(source, lang, anchor) matches Err(ResolveErrorModel::Ambiguous(_, n)) ==> (k <= n ==> spec_resolve(
            source,
            lang,
            with_index(anchor, Some(k)),
        ) is Ok) && (k > n ==> spec_resolve(source, lang, with_index(anchor, Some(k))) == Err::<Span, ResolveErrorModel>(
            ResolveErrorModel::NotFound(anchor.segments.last().name),
        )),
        parsed(source, lang) matches Some(t) ==> (last_candidates(t, lang.spec_family(), anchor.segments) matches Some(c) ==> (k
            <= c.len() ==> spec_resolve(source, lang, with_index(anchor, Some(k))) == Ok::<Span, ResolveErrorModel>(span_of(
            c[k - 1],
        )))),
{
    match parsed(source, lang) {
        None => {},
        Some(t) => {
            let fam = lang.spec_family();
            let segs = anchor.segments;
            lemma_positional_selection(t, fam, segs, Some(k));
            match last_candidates(t, fam, segs) {
                Some(c) => {
                    assert(select(c, None) == c);
                },
                None => {
                    if fam == Family::Go {
                    } else {
                        lemma_no_scope_cands(seq![t], segs, fam);
                    }
                },
            }
        },
    }
}

} // verus!
