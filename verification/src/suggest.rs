//! Suggestions: the public symbols of some source files that no hub anchors yet, as anchors
//! ready to paste into a hub. Nothing is written and nothing is stamped. A glob that matches
//! no file is reported, and the run fails only when every glob matched nothing.
//!
//! Finding and reading the files is the caller's; this module decides what to propose.

use vstd::prelude::*;
use crate::anchor::{Anchor, AnchorModel, SegmentModel, parse_anchor, spec_parse_anchor};
use crate::hub::{Claim, ClaimModel};
use crate::lang::Lang;
use crate::order::{text_lt, text_less, sorted_paths, paths_view, path_view, lemma_text_lt_total, lemma_text_lt_irrefl, lemma_text_lt_trans};
use crate::surface::{Surface, public_symbols, symbol_surface};
use crate::text::{views, join_text, join_strings, str_eq};

verus! {

broadcast use vstd::std_specs::vec::group_vec_axioms, vstd::seq::group_seq_axioms;

/// One proposed anchor.
pub struct Suggestion {
    pub file: String,
    pub symbol: String,
    pub at: String,
}

pub struct SuggestionModel {
    pub file: Seq<char>,
    pub symbol: Seq<char>,
    pub at: Seq<char>,
}

impl View for Suggestion {
    type V = SuggestionModel;

    open spec fn view(&self) -> SuggestionModel {
        SuggestionModel { file: self.file@, symbol: self.symbol@, at: self.at@ }
    }
}

pub open spec fn suggestions_view(v: Seq<Suggestion>) -> Seq<SuggestionModel> {
    v.map_values(|s: Suggestion| s@)
}

/// An anchor as `file > A > B`: its file and segment names, positional indices dropped.
pub open spec fn anchor_path_spec(a: AnchorModel) -> Seq<char> {
    join_text(seq![a.file] + a.segments.map_values(|s: SegmentModel| s.name), " > "@)
}

/// `anchor_path_spec` of an anchor.
pub fn anchor_path(a: &Anchor) -> (s: String)
    ensures
        s@ == anchor_path_spec(a@),
{
    let mut parts: Vec<String> = Vec::new();
    parts.push(a.file.clone());
    let mut k: usize = 0;
    while k < a.segments.len()
        invariant
            k <= a.segments@.len(),
            views(parts@) == seq![a@.file] + a@.segments.map_values(|s: SegmentModel| s.name).take(k as int),
        decreases a.segments.len() - k,
    {
        let n = a.segments[k].name.clone();
        proof {
            assert(views(parts@.push(n)) =~= views(parts@).push(n@));
            assert(a@.segments.map_values(|s: SegmentModel| s.name).take(k + 1) =~= a@.segments.map_values(|s: SegmentModel| s.name).take(
                k as int,
            ).push(a@.segments[k as int].name));
        }
        parts.push(n);
        k += 1;
    }
    proof {
        assert(a@.segments.map_values(|s: SegmentModel| s.name).take(k as int) =~= a@.segments.map_values(|s: SegmentModel| s.name));
    }
    join_strings(parts.as_slice(), " > ")
}

/// The covered anchor paths a hub adds, in order: one per site whose anchor parses.
pub open spec fn claim_paths(sites: Seq<Seq<char>>) -> Seq<Seq<char>>
    decreases sites.len(),
{
    if sites.len() == 0 {
        Seq::empty()
    } else {
        claim_paths(sites.drop_last()) + match spec_parse_anchor(sites.last()) {
            Ok(a) => seq![anchor_path_spec(a)],
            Err(_) => Seq::empty(),
        }
    }
}

/// Appends the anchor paths of a claim's sites (see `claim_paths`) to `covered`.
pub fn cover_claim(claim: &Claim, covered: &mut Vec<String>)
    ensures
        views(final(covered)@) == views(old(covered)@) + claim_paths(claim@.sites),
{
    let sites = claim.at.sites();
    proof {
        assert(views(sites@) =~= claim@.sites);
    }
    let ghost start = views(covered@);
    let mut k: usize = 0;
    while k < sites.len()
        invariant
            k <= sites@.len(),
            views(sites@) == claim@.sites,
            views(covered@) == start + claim_paths(claim@.sites.take(k as int)),
        decreases sites.len() - k,
    {
        proof {
            assert(claim@.sites.take(k + 1).drop_last() =~= claim@.sites.take(k as int));
            assert(claim@.sites.take(k + 1).last() == sites@[k as int]@);
        }
        match parse_anchor(sites[k].as_str()) {
            Ok(a) => {
                let p = anchor_path(&a);
                proof {
                    assert(views(covered@.push(p)) =~= views(covered@).push(p@));
                }
                covered.push(p);
            },
            Err(_) => {},
        }
        k += 1;
    }
    proof {
        assert(claim@.sites.take(k as int) =~= claim@.sites);
    }
}

/// The suggestions for the given public symbols of `rel`, in order, skipping those whose
/// anchor path is covered.
pub open spec fn file_suggestions_spec(rel: Seq<char>, covered: Seq<Seq<char>>, syms: Seq<Seq<Seq<char>>>) -> Seq<SuggestionModel>
    decreases syms.len(),
{
    if syms.len() == 0 {
        Seq::empty()
    } else {
        let rest = file_suggestions_spec(rel, covered, syms.drop_last());
        let sym = syms.last();
        let at = rel + " > "@ + join_text(sym, " > "@);
        if covered.contains(at) {
            rest
        } else {
            rest.push(SuggestionModel {
                file: rel,
                symbol: if sym.len() == 0 { Seq::empty() } else { sym.last() },
                at,
            })
        }
    }
}

/// Appends the suggestions for the public symbols of the file `rel` (sorted) that no covered
/// anchor path names.
pub fn file_suggestions(rel: &str, source: &str, lang: Lang, surface: Surface, covered: &Vec<String>, out: &mut Vec<Suggestion>)
    ensures
        exists|syms: Seq<Seq<Seq<char>>>|
            sorted_paths(syms) && syms.to_set() == symbol_surface(source@, lang, surface) && suggestions_view(final(out)@)
                == suggestions_view(old(out)@) + file_suggestions_spec(rel@, views(covered@), syms),
{
    let syms = public_symbols(source, lang, surface);
    let ghost sv = paths_view(syms@);
    let ghost start = suggestions_view(out@);
    let mut k: usize = 0;
    while k < syms.len()
        invariant
            k <= syms@.len(),
            sv == paths_view(syms@),
            suggestions_view(out@) == start + file_suggestions_spec(rel@, views(covered@), sv.take(k as int)),
        decreases syms.len() - k,
    {
        let sym = &syms[k];
        let path = join_strings(sym.as_slice(), " > ");
        let mut at = rel.to_owned();
        at.push_str(" > ");
        at.push_str(path.as_str());
        let mut hit = false;
        let mut c: usize = 0;
        while c < covered.len() && !hit
            invariant
                c <= covered@.len(),
                hit ==> views(covered@).contains(at@),
                !hit ==> forall|i: int| 0 <= i < c ==> (#[trigger] covered@[i])@ != at@,
            decreases covered.len() - c + (if hit { 0int } else { 1int }),
        {
            if str_eq(covered[c].as_str(), at.as_str()) {
                hit = true;
                proof {
                    assert(views(covered@)[c as int] == at@);
                }
            }
            c += 1;
        }
        proof {
            assert(sv.take(k + 1).drop_last() =~= sv.take(k as int));
            assert(sv.take(k + 1).last() == path_view(sym@));
            assert(views(sym@) == path_view(sym@));
            if !hit {
                assert forall|i: int| 0 <= i < views(covered@).len() implies views(covered@)[i] != at@ by {
                    assert(views(covered@)[i] == covered@[i]@);
                }
            }
        }
        if !hit {
            let symbol = if sym.len() == 0 { String::new() } else { sym[sym.len() - 1].clone() };
            let s = Suggestion { file: rel.to_owned(), symbol, at };
            proof {
                assert(suggestions_view(out@.push(s)) =~= suggestions_view(out@).push(s@));
            }
            out.push(s);
        }
        k += 1;
    }
    proof {
        assert(sv.take(k as int) =~= sv);
    }
}

/// `ss` is sorted by anchor path, each path once.
pub open spec fn sorted_by_at(ss: Seq<SuggestionModel>) -> bool {
    forall|a: int, b: int| 0 <= a < b < ss.len() ==> text_lt(#[trigger] ss[a].at, #[trigger] ss[b].at)
}

/// The first suggestion with anchor path `at`.
pub open spec fn first_with_at(ss: Seq<SuggestionModel>, at: Seq<char>) -> Option<SuggestionModel> {
    match crate::text::first_where(ss, |s: SuggestionModel| s.at == at) {
        Some(i) => Some(ss[i]),
        None => None,
    }
}

/// Inserts `x` in path order unless a suggestion with its path is already there.
fn insert_suggestion(out: &mut Vec<Suggestion>, x: Suggestion) -> (added: bool)
    requires
        sorted_by_at(suggestions_view(old(out)@)),
    ensures
        sorted_by_at(suggestions_view(final(out)@)),
        added == !(exists|k: int| 0 <= k < old(out)@.len() && (#[trigger] old(out)@[k])@.at == x@.at),
        added ==> exists|pos: int| 0 <= pos <= old(out)@.len() && final(out)@ == old(out)@.insert(pos, x),
        !added ==> final(out)@ == old(out)@,
{
    let ghost os = out@;
    let ghost ov = suggestions_view(os);
    let mut pos: usize = 0;
    while pos < out.len() && text_less(&out[pos].at, &x.at)
        invariant
            pos <= out@.len(),
            out@ == os,
            forall|k: int| 0 <= k < pos ==> text_lt((#[trigger] out@[k])@.at, x@.at),
        decreases out.len() - pos,
    {
        pos += 1;
    }
    proof {
        if pos < os.len() {
            lemma_text_lt_total(os[pos as int]@.at, x@.at);
            assert forall|b: int| pos < b < os.len() implies text_lt(os[pos as int]@.at, (#[trigger] os[b])@.at) by {
                assert(ov[pos as int] == os[pos as int]@);
                assert(ov[b] == os[b]@);
            }
        }
    }
    if pos < out.len() && str_eq(out[pos].at.as_str(), x.at.as_str()) {
        return false;
    }
    proof {
        assert forall|b: int| pos <= b < os.len() implies text_lt(x@.at, (#[trigger] os[b])@.at) by {
            if b > pos {
                lemma_text_lt_trans(x@.at, os[pos as int]@.at, os[b]@.at);
            }
        }
        assert forall|k: int| 0 <= k < os.len() implies (#[trigger] os[k])@.at != x@.at by {
            lemma_text_lt_irrefl(x@.at);
        }
    }
    out.insert(pos, x);
    proof {
        let fin = out@;
        let fv = suggestions_view(fin);
        assert(fin == os.insert(pos as int, x));
        assert forall|a: int, b: int| 0 <= a < b < fv.len() implies text_lt(#[trigger] fv[a].at, #[trigger] fv[b].at) by {
            if a < pos && b > pos {
                assert(fin[b] == os[b - 1]);
                lemma_text_lt_trans(fin[a]@.at, x@.at, fin[b]@.at);
            } else if a == pos {
                assert(fin[b] == os[b - 1]);
            } else if a > pos {
                assert(fin[a] == os[a - 1]);
                assert(fin[b] == os[b - 1]);
                assert(ov[a - 1] == os[a - 1]@);
                assert(ov[b - 1] == os[b - 1]@);
            } else if b < pos {
                assert(ov[a] == os[a]@);
                assert(ov[b] == os[b]@);
            }
        }
    }
    true
}

/// Sorts suggestions by anchor path and keeps, of those sharing a path, the first.
#[verifier::rlimit(30)]
pub fn sort_dedup_suggestions(v: Vec<Suggestion>) -> (r: Vec<Suggestion>)
    ensures
        sorted_by_at(suggestions_view(r@)),
        forall|k: int| 0 <= k < r@.len() ==> first_with_at(suggestions_view(v@), (#[trigger] r@[k])@.at) == Some(r@[k]@),
        forall|i: int| 0 <= i < v@.len() ==> exists|k: int| 0 <= k < r@.len() && (#[trigger] r@[k])@.at == (#[trigger] v@[i])@.at,
{
    let ghost vs = suggestions_view(v@);
    let mut out: Vec<Suggestion> = Vec::new();
    let mut rest = v;
    let mut i: usize = 0;
    let n = rest.len();
    proof {
        assert(suggestions_view(rest@) =~= vs.skip(0));
    }
    while i < n
        invariant
            i <= n == vs.len(),
            rest@.len() == n - i,
            suggestions_view(rest@) == vs.skip(i as int),
            sorted_by_at(suggestions_view(out@)),
            forall|k: int| 0 <= k < out@.len() ==> first_with_at(vs, (#[trigger] out@[k])@.at) == Some(out@[k]@),
            forall|j: int| 0 <= j < i ==> exists|k: int| 0 <= k < out@.len() && (#[trigger] out@[k])@.at == (#[trigger] vs[j]).at,
        decreases n - i,
    {
        let ghost before = rest@;
        let x = rest.remove(0);
        proof {
            assert(x == before[0]);
            assert(suggestions_view(before)[0] == before[0]@);
            assert(vs.skip(i as int)[0] == vs[i as int]);
            assert(rest@ =~= before.drop_first());
            assert(suggestions_view(rest@) =~= suggestions_view(before).drop_first());
            assert(vs.skip(i as int).drop_first() =~= vs.skip(i + 1));
        }
        let ghost xv = x@;
        let ghost os = out@;
        let added = insert_suggestion(&mut out, x);
        proof {
            if added {
                let pos = choose|pos: int| 0 <= pos <= os.len() && out@ == os.insert(pos, x);
                assert forall|j: int| 0 <= j < i implies (#[trigger] vs[j]).at != xv.at by {
                    if vs[j].at == xv.at {
                        let k = choose|k: int| 0 <= k < os.len() && (#[trigger] os[k])@.at == vs[j].at;
                        assert(os[k]@.at == xv.at);
                    }
                }
                crate::text::lemma_first_where(vs, |s: SuggestionModel| s.at == xv.at, i as int);
                assert forall|k: int| 0 <= k < out@.len() implies first_with_at(vs, (#[trigger] out@[k])@.at) == Some(out@[k]@) by {
                    if k < pos {
                        assert(out@[k] == os[k]);
                    } else if k > pos {
                        assert(out@[k] == os[k - 1]);
                    }
                }
                assert forall|j: int| 0 <= j < i + 1 implies exists|k: int| 0 <= k < out@.len() && (#[trigger] out@[k])@.at == (#[trigger] vs[j]).at by {
                    if j == i {
                        assert(out@[pos] == x);
                    } else {
                        let k = choose|k: int| 0 <= k < os.len() && (#[trigger] os[k])@.at == vs[j].at;
                        if k < pos {
                            assert(out@[k] == os[k]);
                        } else {
                            assert(out@[k + 1] == os[k]);
                        }
                    }
                }
            } else {
                assert forall|j: int| 0 <= j < i + 1 implies exists|k: int| 0 <= k < out@.len() && (#[trigger] out@[k])@.at == (#[trigger] vs[j]).at by {
                    if j == i {
                        let k = choose|k: int| 0 <= k < os.len() && (#[trigger] os[k])@.at == xv.at;
                        assert(out@[k]@.at == vs[j].at);
                    }
                }
            }
        }
        i += 1;
    }
    proof {
        assert forall|a: int| 0 <= a < v@.len() implies exists|k: int| 0 <= k < out@.len() && (#[trigger] out@[k])@.at == (#[trigger] v@[a])@.at by {
            assert(vs[a] == v@[a]@);
        }
    }
    out
}

/// How many files a glob matched, and how many of them in a supported language.
pub struct GlobReport {
    pub pattern: String,
    pub files_matched: usize,
    pub supported_matched: usize,
}

/// The run fails when globs were given and every one of them matched no file.
pub fn suggest_fails(globs: &Vec<GlobReport>) -> (b: bool)
    ensures
        b == (globs@.len() > 0 && forall|i: int| 0 <= i < globs@.len() ==> (#[trigger] globs@[i]).files_matched == 0),
{
    if globs.len() == 0 {
        return false;
    }
    let mut k: usize = 0;
    while k < globs.len()
        invariant
            k <= globs@.len(),
            forall|i: int| 0 <= i < k ==> (#[trigger] globs@[i]).files_matched == 0,
        decreases globs.len() - k,
    {
        if globs[k].files_matched != 0 {
            return false;
        }
        k += 1;
    }
    true
}

/// Covering a claim covers every one of its sites: each site whose anchor parses adds its
/// anchor path, and nothing else is added.
pub proof fn lemma_claim_paths_cover_sites(sites: Seq<Seq<char>>)
    ensures
        forall|i: int| 0 <= i < sites.len() && (#[trigger] spec_parse_anchor(sites[i])) is Ok ==> claim_paths(sites).contains(
            anchor_path_spec(spec_parse_anchor(sites[i])->Ok_0),
        ),
        forall|x: Seq<char>| #[trigger] claim_paths(sites).contains(x) ==> exists|i: int|
            0 <= i < sites.len() && (#[trigger] spec_parse_anchor(sites[i])) is Ok && x == anchor_path_spec(spec_parse_anchor(sites[i])->Ok_0),
    decreases sites.len(),
{
    if sites.len() > 0 {
        let init = sites.drop_last();
        lemma_claim_paths_cover_sites(init);
        let tail: Seq<Seq<char>> = match spec_parse_anchor(sites.last()) {
            Ok(a) => seq![anchor_path_spec(a)],
            Err(_) => Seq::empty(),
        };
        let cp = claim_paths(sites);
        assert(cp == claim_paths(init) + tail);
        assert forall|i: int| 0 <= i < sites.len() && (#[trigger] spec_parse_anchor(sites[i])) is Ok implies cp.contains(
            anchor_path_spec(spec_parse_anchor(sites[i])->Ok_0),
        ) by {
            let p = anchor_path_spec(spec_parse_anchor(sites[i])->Ok_0);
            if i < sites.len() - 1 {
                assert(init[i] == sites[i]);
                assert(spec_parse_anchor(init[i]) is Ok);
                let j = choose|j: int| 0 <= j < claim_paths(init).len() && claim_paths(init)[j] == p;
                assert(cp[j] == p);
            } else {
                assert(cp[claim_paths(init).len() as int] == p);
            }
        }
        assert forall|x: Seq<char>| #[trigger] cp.contains(x) implies exists|i: int|
            0 <= i < sites.len() && (#[trigger] spec_parse_anchor(sites[i])) is Ok && x == anchor_path_spec(spec_parse_anchor(sites[i])->Ok_0) by {
            let j = choose|j: int| 0 <= j < cp.len() && cp[j] == x;
            if j < claim_paths(init).len() {
                assert(claim_paths(init)[j] == x);
                assert(claim_paths(init).contains(x));
                let i = choose|i: int|
                    0 <= i < init.len() && (#[trigger] spec_parse_anchor(init[i])) is Ok && x == anchor_path_spec(spec_parse_anchor(init[i])->Ok_0);
                assert(init[i] == sites[i]);
            } else {
                assert(spec_parse_anchor(sites[sites.len() - 1]) is Ok);
            }
        }
    }
}

} // verus!
