//! Rename detection. When an anchor no longer resolves, is the documented code gone or only
//! renamed? The fingerprint numbers identifiers instead of spelling them, so a symbol that
//! was renamed but otherwise left alone still has the claim's stored fingerprint. A match
//! against some current definition is strong evidence of a rename, with no git and no
//! similarity threshold.

use vstd::prelude::*;
use crate::lang::{Family, Lang};
use crate::names::{def_name, scope_index, def_name_exec, scope_index_exec, lemma_scope_index, scope_of};
use crate::resolve::{Match, ResolveError, ResolveErrorModel, widen, matches_view, collect_matching, collect_prefix, collect_scopes,
    is_overload_stub, group_overloads, groups, select, next_scopes, member_scopes, resolve_scopes, resolve_tree};
use crate::names::is_transparent;
use crate::anchor::AnchorModel;
use crate::hash::{HashOpts, fingerprint, symbol_tokens, symbol_tokens_exec, hash_tokens, tokens_view, spec_hash_anchor};
use crate::syntax::{Ast, SyntaxNode, parsed, parse_tree};
use crate::text::{text_is, first_where, lemma_first_where, lemma_first_where_found_some};

verus! {

broadcast use vstd::std_specs::vec::group_vec_axioms, vstd::seq::group_seq_axioms;

/// Every definition in a subtree at any depth, with its name, in document order.
pub open spec fn all_defs(node: Ast, family: Family) -> Seq<(Seq<char>, Match)>
    decreases node, 0int,
{
    all_defs_prefix(node.children, node, family, node.children.len() as int)
}

pub open spec fn all_defs_prefix(cs: Seq<Ast>, parent: Ast, family: Family, k: int) -> Seq<(Seq<char>, Match)>
    decreases cs, k,
{
    if k <= 0 || k > cs.len() {
        Seq::empty()
    } else {
        let before = all_defs_prefix(cs, parent, family, k - 1);
        let c = cs[k - 1];
        if !c.named {
            before
        } else {
            match def_name(c, family) {
                Some(n) => before.push((n, Match { def: c, outer: widen(c, parent, family) })) + defs_in_scope(c, family),
                None => before + all_defs(c, family),
            }
        }
    }
}

/// The definitions inside a definition's scope.
pub open spec fn defs_in_scope(c: Ast, family: Family) -> Seq<(Seq<char>, Match)>
    decreases c, 1int,
{
    match scope_index(c, family) {
        Some(i) => if 0 <= i < c.children.len() {
            all_defs(c.children[i], family)
        } else {
            Seq::empty()
        },
        None => all_defs(c, family),
    }
}

/// The fingerprint of one definition, as `hash_anchor` computes it for an anchor naming it.
pub open spec fn def_fingerprint(m: Match, family: Family, opts: HashOpts) -> Seq<char> {
    fingerprint(symbol_tokens(seq![m], family, opts))
}

/// The name of the first definition whose fingerprint is `stored`.
pub open spec fn renamed_in(defs: Seq<(Seq<char>, Match)>, family: Family, opts: HashOpts, stored: Seq<char>) -> Option<Seq<char>> {
    match first_where(defs, |d: (Seq<char>, Match)| def_fingerprint(d.1, family, opts) == stored) {
        Some(i) => Some(defs[i].0),
        None => None,
    }
}

pub open spec fn spec_find_renamed(source: Seq<char>, lang: Lang, stored: Seq<char>, opts: HashOpts) -> Result<Option<Seq<char>>, ResolveErrorModel> {
    match parsed(source, lang) {
        None => Err(ResolveErrorModel::Parse),
        Some(t) => Ok(renamed_in(all_defs(t, lang.spec_family()), lang.spec_family(), opts, stored)),
    }
}

/// Every element of `a` is an element of `b`.
pub open spec fn within<A>(a: Seq<A>, b: Seq<A>) -> bool {
    forall|x: A| a.contains(x) ==> b.contains(x)
}

proof fn lemma_within_concat<A>(a: Seq<A>, b: Seq<A>)
    ensures
        within(a, a + b),
        within(b, a + b),
{
    assert forall|x: A| a.contains(x) implies (a + b).contains(x) by {
        let i = choose|i: int| 0 <= i < a.len() && a[i] == x;
        assert((a + b)[i] == x);
    }
    assert forall|x: A| b.contains(x) implies (a + b).contains(x) by {
        let i = choose|i: int| 0 <= i < b.len() && b[i] == x;
        assert((a + b)[a.len() + i] == x);
    }
}

proof fn lemma_within_push<A>(a: Seq<A>, y: A)
    ensures
        within(a, a.push(y)),
        a.push(y).contains(y),
{
    assert forall|x: A| a.contains(x) implies a.push(y).contains(x) by {
        let i = choose|i: int| 0 <= i < a.len() && a[i] == x;
        assert(a.push(y)[i] == x);
    }
    assert(a.push(y)[a.len() as int] == y);
}

proof fn lemma_within_trans<A>(a: Seq<A>, b: Seq<A>, c: Seq<A>)
    requires
        within(a, b),
        within(b, c),
    ensures
        within(a, c),
{
}

/// Each definition that a scope offers for a name is listed among the scope's definitions,
/// and so is everything inside it.
proof fn lemma_matching_in_defs(scope: Ast, family: Family, name: Seq<char>)
    ensures
        forall|i: int|
            0 <= i < collect_matching(scope, family, name).len() ==> all_defs(scope, family).contains(
                (name, #[trigger] collect_matching(scope, family, name)[i]),
            ) && within(all_defs(scope_of(collect_matching(scope, family, name)[i].def, family), family), all_defs(scope, family)),
    decreases scope, 0int,
{
    lemma_prefix_in_defs(scope.children, scope, family, name, scope.children.len() as int);
}

proof fn lemma_prefix_in_defs(cs: Seq<Ast>, parent: Ast, family: Family, name: Seq<char>, k: int)
    ensures
        forall|i: int|
            0 <= i < collect_prefix(cs, parent, family, name, k).len() ==> all_defs_prefix(cs, parent, family, k).contains(
                (name, #[trigger] collect_prefix(cs, parent, family, name, k)[i]),
            ) && within(
                all_defs(scope_of(collect_prefix(cs, parent, family, name, k)[i].def, family), family),
                all_defs_prefix(cs, parent, family, k),
            ),
    decreases cs, k,
{
    if 0 < k <= cs.len() {
        lemma_prefix_in_defs(cs, parent, family, name, k - 1);
        let bc = collect_prefix(cs, parent, family, name, k - 1);
        let bd = all_defs_prefix(cs, parent, family, k - 1);
        let cc = collect_prefix(cs, parent, family, name, k);
        let cd = all_defs_prefix(cs, parent, family, k);
        let c = cs[k - 1];
        if c.named {
            match def_name(c, family) {
                Some(n) => {
                    let entry = (n, Match { def: c, outer: widen(c, parent, family) });
                    let rest = defs_in_scope(c, family);
                    lemma_within_push(bd, entry);
                    lemma_within_concat(bd.push(entry), rest);
                    lemma_within_trans(bd, bd.push(entry), cd);
                    lemma_scope_index(c, family);
                    assert(all_defs(scope_of(c, family), family) == rest);
                    assert forall|i: int| 0 <= i < cc.len() implies cd.contains((name, #[trigger] cc[i])) && within(
                        all_defs(scope_of(cc[i].def, family), family),
                        cd,
                    ) by {
                        if i < bc.len() {
                            assert(cc[i] == bc[i]);
                            assert(bd.contains((name, bc[i])));
                            lemma_within_trans(all_defs(scope_of(bc[i].def, family), family), bd, cd);
                        } else {
                            assert(n == name && cc[i] == entry.1);
                        }
                    }
                },
                None => {
                    let rest = all_defs(c, family);
                    lemma_within_concat(bd, rest);
                    if is_transparent(c.kind, family) {
                        lemma_matching_in_defs(c, family, name);
                        let inner = collect_matching(c, family, name);
                        assert forall|i: int| 0 <= i < cc.len() implies cd.contains((name, #[trigger] cc[i])) && within(
                            all_defs(scope_of(cc[i].def, family), family),
                            cd,
                        ) by {
                            if i < bc.len() {
                                assert(cc[i] == bc[i]);
                                assert(bd.contains((name, bc[i])));
                                lemma_within_trans(all_defs(scope_of(bc[i].def, family), family), bd, cd);
                            } else {
                                assert(cc[i] == inner[i - bc.len()]);
                                assert(rest.contains((name, inner[i - bc.len()])));
                                lemma_within_trans(all_defs(scope_of(cc[i].def, family), family), rest, cd);
                            }
                        }
                    } else {
                        assert forall|i: int| 0 <= i < cc.len() implies cd.contains((name, #[trigger] cc[i])) && within(
                            all_defs(scope_of(cc[i].def, family), family),
                            cd,
                        ) by {
                            assert(bd.contains((name, bc[i])));
                            lemma_within_trans(all_defs(scope_of(bc[i].def, family), family), bd, cd);
                        }
                    }
                },
            }
        }
    }
}

/// A definition that is listed in `defs` with everything inside it.
pub open spec fn listed(m: Match, family: Family, defs: Seq<(Seq<char>, Match)>) -> bool {
    &&& within(all_defs(scope_of(m.def, family), family), defs)
    &&& exists|n: Seq<char>| #[trigger] defs.contains((n, m))
}

pub open spec fn all_listed(ms: Seq<Match>, family: Family, defs: Seq<(Seq<char>, Match)>) -> bool {
    forall|i: int| 0 <= i < ms.len() ==> listed(#[trigger] ms[i], family, defs)
}

proof fn lemma_scopes_listed(scopes: Seq<Ast>, family: Family, name: Seq<char>, defs: Seq<(Seq<char>, Match)>)
    requires
        forall|j: int| 0 <= j < scopes.len() ==> within(all_defs(#[trigger] scopes[j], family), defs),
    ensures
        all_listed(collect_scopes(scopes, family, name), family, defs),
    decreases scopes.len(),
{
    if scopes.len() > 0 {
        let init = scopes.drop_last();
        assert forall|j: int| 0 <= j < init.len() implies within(all_defs(#[trigger] init[j], family), defs) by {
            assert(init[j] == scopes[j]);
        }
        lemma_scopes_listed(init, family, name, defs);
        let last = scopes.last();
        assert(within(all_defs(scopes[scopes.len() - 1], family), defs));
        lemma_matching_in_defs(last, family, name);
        let a = collect_scopes(init, family, name);
        let b = collect_matching(last, family, name);
        assert forall|i: int| 0 <= i < (a + b).len() implies listed(#[trigger] (a + b)[i], family, defs) by {
            if i < a.len() {
                assert((a + b)[i] == a[i]);
            } else {
                let m = b[i - a.len()];
                assert((a + b)[i] == m);
                assert(all_defs(last, family).contains((name, m)));
                assert(defs.contains((name, m)));
                lemma_within_trans(all_defs(scope_of(m.def, family), family), all_defs(last, family), defs);
            }
        }
    }
}

proof fn lemma_overloads_listed(ms: Seq<Match>, pending: Seq<Match>, family: Family, defs: Seq<(Seq<char>, Match)>)
    requires
        all_listed(ms, family, defs),
        all_listed(pending, family, defs),
    ensures
        forall|j: int| 0 <= j < group_overloads(ms, pending).len() ==> all_listed(#[trigger] group_overloads(ms, pending)[j], family, defs),
    decreases ms.len(),
{
    if ms.len() == 0 {
        if pending.len() > 0 {
            assert(group_overloads(ms, pending) == seq![pending]);
            assert(group_overloads(ms, pending)[0] == pending);
        } else {
            assert(group_overloads(ms, pending).len() == 0);
        }
    } else {
        let rest = ms.drop_first();
        assert forall|i: int| 0 <= i < rest.len() implies listed(#[trigger] rest[i], family, defs) by {
            assert(rest[i] == ms[i + 1]);
        }
        let p2 = pending.push(ms[0]);
        assert forall|i: int| 0 <= i < p2.len() implies listed(#[trigger] p2[i], family, defs) by {
            if i < pending.len() {
                assert(p2[i] == pending[i]);
            } else {
                assert(p2[i] == ms[0]);
            }
        }
        if is_overload_stub(ms[0]) {
            lemma_overloads_listed(rest, p2, family, defs);
            assert(group_overloads(ms, pending) == group_overloads(rest, p2));
        } else {
            lemma_overloads_listed(rest, Seq::empty(), family, defs);
            let tail = group_overloads(rest, Seq::empty());
            assert(group_overloads(ms, pending) == seq![p2] + tail);
            assert forall|j: int| 0 <= j < (seq![p2] + tail).len() implies all_listed(#[trigger] (seq![p2] + tail)[j], family, defs) by {
                if j == 0 {
                    assert((seq![p2] + tail)[j] == p2);
                } else {
                    assert((seq![p2] + tail)[j] == tail[j - 1]);
                }
            }
        }
    }
}

proof fn lemma_selected_listed(ms: Seq<Match>, family: Family, index: Option<nat>, defs: Seq<(Seq<char>, Match)>)
    requires
        all_listed(ms, family, defs),
    ensures
        forall|j: int| 0 <= j < select(groups(ms, family), index).len() ==> all_listed(
            #[trigger] select(groups(ms, family), index)[j],
            family,
            defs,
        ),
{
    let gs = groups(ms, family);
    if family == Family::Python {
        lemma_overloads_listed(ms, Seq::empty(), family, defs);
    } else {
        assert forall|j: int| 0 <= j < gs.len() implies all_listed(#[trigger] gs[j], family, defs) by {
            assert(gs[j] == seq![ms[j]]);
            assert(gs[j][0] == ms[j]);
        }
    }
    let sel = select(gs, index);
    assert forall|j: int| 0 <= j < sel.len() implies all_listed(#[trigger] sel[j], family, defs) by {
        match index {
            Some(k) => {
                assert(sel[j] == gs[k - 1]);
            },
            None => {},
        }
    }
}

proof fn lemma_next_scopes_within(sel: Seq<Seq<Match>>, family: Family, defs: Seq<(Seq<char>, Match)>)
    requires
        forall|j: int| 0 <= j < sel.len() ==> all_listed(#[trigger] sel[j], family, defs),
    ensures
        forall|i: int| 0 <= i < next_scopes(sel, family).len() ==> within(all_defs(#[trigger] next_scopes(sel, family)[i], family), defs),
    decreases sel.len(),
{
    if sel.len() > 0 {
        let init = sel.drop_last();
        assert forall|j: int| 0 <= j < init.len() implies all_listed(#[trigger] init[j], family, defs) by {
            assert(init[j] == sel[j]);
        }
        lemma_next_scopes_within(init, family, defs);
        let a = next_scopes(init, family);
        let g = sel.last();
        assert(all_listed(sel[sel.len() - 1], family, defs));
        let b = member_scopes(g, family);
        assert forall|i: int| 0 <= i < (a + b).len() implies within(all_defs(#[trigger] (a + b)[i], family), defs) by {
            if i < a.len() {
                assert((a + b)[i] == a[i]);
            } else {
                assert((a + b)[i] == b[i - a.len()]);
                assert(b[i - a.len()] == scope_of(g[i - a.len()].def, family));
                assert(listed(g[i - a.len()], family, defs));
            }
        }
    }
}

proof fn lemma_walk_listed(scopes: Seq<Ast>, segs: Seq<crate::anchor::SegmentModel>, family: Family, defs: Seq<(Seq<char>, Match)>)
    requires
        forall|j: int| 0 <= j < scopes.len() ==> within(all_defs(#[trigger] scopes[j], family), defs),
    ensures
        resolve_scopes(scopes, segs, family) matches Ok(g) ==> all_listed(g, family, defs),
    decreases segs.len(),
{
    if segs.len() > 0 {
        let seg = segs[0];
        lemma_scopes_listed(scopes, family, seg.name, defs);
        let ms = collect_scopes(scopes, family, seg.name);
        lemma_selected_listed(ms, family, seg.index, defs);
        let sel = select(groups(ms, family), seg.index);
        if sel.len() > 0 {
            if segs.len() == 1 {
                if sel.len() == 1 {
                    assert(all_listed(sel[0], family, defs));
                }
            } else {
                lemma_next_scopes_within(sel, family, defs);
                lemma_walk_listed(next_scopes(sel, family), segs.drop_first(), family, defs);
            }
        }
    }
}

/// A renamed definition is found at any depth: when an anchor names a single definition
/// (in any language but Go, whose methods stand at the top level), looking for the
/// fingerprint that `hash_anchor` gives it, in the same source, finds a name.
pub proof fn lemma_named_def_is_found(source: Seq<char>, lang: Lang, anchor: AnchorModel, opts: HashOpts)
    requires
        lang.spec_family() != Family::Go,
        parsed(source, lang) matches Some(t) && resolve_tree(t, lang.spec_family(), anchor.segments) matches Ok(g) && g.len() == 1,
    ensures
        spec_hash_anchor(source, lang, anchor, opts) matches Ok(h) && spec_find_renamed(source, lang, h, opts) matches Ok(Some(_)),
{
    let t = parsed(source, lang)->Some_0;
    let family = lang.spec_family();
    let g = resolve_tree(t, family, anchor.segments)->Ok_0;
    let defs = all_defs(t, family);
    let scopes = seq![t];
    assert forall|j: int| 0 <= j < scopes.len() implies within(all_defs(#[trigger] scopes[j], family), defs) by {
        assert(scopes[j] == t);
    }
    lemma_walk_listed(scopes, anchor.segments, family, defs);
    assert(listed(g[0], family, defs));
    let n = choose|n: Seq<char>| #[trigger] defs.contains((n, g[0]));
    let i = choose|i: int| 0 <= i < defs.len() && defs[i] == (n, g[0]);
    assert(g =~= seq![g[0]]);
    let h = fingerprint(symbol_tokens(g, family, opts));
    assert(spec_hash_anchor(source, lang, anchor, opts) == Ok::<Seq<char>, ResolveErrorModel>(h));
    assert(def_fingerprint(defs[i].1, family, opts) == h);
    lemma_first_where_found_some(defs, |d: (Seq<char>, Match)| def_fingerprint(d.1, family, opts) == h, i);
}

pub open spec fn defs_view<'a>(v: Seq<(&'a String, (&'a SyntaxNode, &'a SyntaxNode))>) -> Seq<(Seq<char>, Match)> {
    v.map_values(|d: (&'a String, (&'a SyntaxNode, &'a SyntaxNode))| (d.0@, Match { def: d.1.0@, outer: d.1.1@ }))
}

fn all_defs_exec<'a>(node: &'a SyntaxNode, family: Family, out: &mut Vec<(&'a String, (&'a SyntaxNode, &'a SyntaxNode))>)
    ensures
        defs_view(final(out)@) =~= defs_view(old(out)@) + all_defs(node@, family),
    decreases node, 0int,
{
    let ghost start = old(out)@;
    let mut i: usize = 0;
    proof {
        assert(defs_view(out@) + all_defs_prefix(node@.children, node@, family, 0) =~= defs_view(out@));
    }
    while i < node.children.len()
        invariant
            i <= node.children@.len(),
            node@.children.len() == node.children@.len(),
            defs_view(out@) =~= defs_view(start) + all_defs_prefix(node@.children, node@, family, i as int),
        decreases node.children@.len() - i,
    {
        let c = &node.children[i];
        proof {
            assert(node@.children[i as int] == c@);
        }
        if c.named {
            match def_name_exec(c, family) {
                Some(n) => {
                    let outer = if family == Family::Python && (text_is(&c.kind, "function_definition") || text_is(
                        &c.kind,
                        "class_definition",
                    )) && text_is(&node.kind, "decorated_definition") {
                        node
                    } else {
                        c
                    };
                    proof {
                        assert(defs_view(out@.push((n, (c, outer)))) =~= defs_view(out@).push((n@, Match { def: c@, outer: outer@ })));
                    }
                    out.push((n, (c, outer)));
                    defs_in_scope_exec(c, family, out);
                },
                None => {
                    all_defs_exec(c, family, out);
                },
            }
        }
        i += 1;
    }
}

fn defs_in_scope_exec<'a>(c: &'a SyntaxNode, family: Family, out: &mut Vec<(&'a String, (&'a SyntaxNode, &'a SyntaxNode))>)
    ensures
        defs_view(final(out)@) =~= defs_view(old(out)@) + defs_in_scope(c@, family),
    decreases c, 1int,
{
    match scope_index_exec(c, family) {
        Some(i) => {
            proof {
                assert(c@.children[i as int] == c.children@[i as int]@);
            }
            all_defs_exec(&c.children[i], family, out);
        },
        None => {
            all_defs_exec(c, family, out);
        },
    }
}

/// If some current definition's fingerprint equals `stored_hash`, its name: the symbol the
/// anchor was probably renamed to. `opts` must be the mode the stored hash was made in.
pub fn find_renamed(source: &str, lang: Lang, stored_hash: &str, opts: HashOpts) -> (r: Result<Option<String>, ResolveError>)
    ensures
        match r {
            Ok(Some(n)) => spec_find_renamed(source@, lang, stored_hash@, opts) == Ok::<Option<Seq<char>>, ResolveErrorModel>(Some(n@)),
            Ok(None) => spec_find_renamed(source@, lang, stored_hash@, opts) == Ok::<Option<Seq<char>>, ResolveErrorModel>(None),
            Err(e) => spec_find_renamed(source@, lang, stored_hash@, opts) == Err::<Option<Seq<char>>, ResolveErrorModel>(e@),
        },
{
    let tree = match parse_tree(source, lang) {
        Some(t) => t,
        None => {
            return Err(ResolveError::Parse);
        },
    };
    let family = lang.family();
    let mut defs: Vec<(&String, (&SyntaxNode, &SyntaxNode))> = Vec::new();
    all_defs_exec(&tree, family, &mut defs);
    let ghost dv = defs_view(defs@);
    proof {
        assert(dv =~= all_defs(tree@, family));
    }
    let mut k: usize = 0;
    while k < defs.len()
        invariant
            k <= defs@.len(),
            dv == defs_view(defs@),
            dv == all_defs(tree@, family),
            family == lang.spec_family(),
            parsed(source@, lang) == Some(tree@),
            forall|j: int| 0 <= j < k ==> !(|d: (Seq<char>, Match)| def_fingerprint(d.1, family, opts) == stored_hash@)(#[trigger] dv[j]),
        decreases defs@.len() - k,
    {
        let (name, m) = defs[k];
        let mut g: Vec<(&SyntaxNode, &SyntaxNode)> = Vec::new();
        g.push(m);
        proof {
            assert(matches_view(g@) =~= seq![dv[k as int].1]);
        }
        let h = hash_tokens(&symbol_tokens_exec(&g, family, opts));
        if text_is(&h, stored_hash) {
            proof {
                lemma_first_where(dv, |d: (Seq<char>, Match)| def_fingerprint(d.1, family, opts) == stored_hash@, k as int);
            }
            return Ok(Some(name.clone()));
        }
        k += 1;
    }
    proof {
        lemma_first_where(dv, |d: (Seq<char>, Match)| def_fingerprint(d.1, family, opts) == stored_hash@, k as int);
    }
    Ok(None)
}

} // verus!
