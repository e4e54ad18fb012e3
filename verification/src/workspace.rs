//! The workspace: its root directory and configuration, where new hubs go, what a new hub
//! looks like, and the reverse lookup from a file to the claims anchored in it.
//!
//! Discovering the root and listing hub files are the caller's (they touch the file system).

use vstd::prelude::*;
use crate::anchor::{parse_anchor, spec_parse_anchor, AnchorModel};
use crate::config::{Config, default_hub_glob};
use crate::hub::{Claim, ClaimModel};
use crate::order::{text_lt, text_less, lemma_text_lt_total, lemma_text_lt_irrefl, lemma_text_lt_trans};
use crate::text::{trim, views, trim_string, str_eq, chars_of, string_of, find_char, first_where, lemma_first_where};

verus! {

broadcast use vstd::std_specs::vec::group_vec_axioms, vstd::seq::group_seq_axioms;

/// A workspace: the directory holding the configuration file, and the configuration.
pub struct Workspace {
    pub root: String,
    pub config: Config,
}

/// A glob metacharacter.
pub open spec fn is_glob_meta(c: char) -> bool {
    c == '*' || c == '?' || c == '['
}

pub open spec fn glob_meta() -> spec_fn(char) -> bool {
    |c: char| is_glob_meta(c)
}

/// The last `/` in `s`.
pub open spec fn last_slash(s: Seq<char>) -> Option<int>
    decreases s.len(),
{
    if s.len() == 0 {
        None
    } else if s.last() == '/' {
        Some(s.len() - 1)
    } else {
        last_slash(s.drop_last())
    }
}

/// The directory a new hub goes in: the literal part of the first hub glob (up to its first
/// metacharacter) up to its last `/`; `hubs` when that part holds no `/`. With no glob
/// configured, the default one is used.
pub open spec fn hub_dir_spec(globs: Seq<Seq<char>>) -> Seq<char> {
    let glob = if globs.len() == 0 { default_hub_glob() } else { globs[0] };
    let literal = match crate::text::first_where(glob, glob_meta()) {
        Some(i) => glob.take(i),
        None => glob,
    };
    match last_slash(literal) {
        Some(i) => literal.take(i),
        None => "hubs"@,
    }
}

/// The directory a new hub goes in (see `hub_dir_spec`).
pub fn hub_dir(globs: &Vec<String>) -> (d: String)
    ensures
        d@ == hub_dir_spec(views(globs@)),
{
    let glob: Vec<char> = if globs.len() == 0 { chars_of("hubs/*.md") } else { chars_of(globs[0].as_str()) };
    proof {
        if globs@.len() > 0 {
            assert(views(globs@)[0] == globs@[0]@);
        }
    }
    let mut end: usize = 0;
    while end < glob.len() && !(glob[end] == '*' || glob[end] == '?' || glob[end] == '[')
        invariant
            end <= glob.len(),
            forall|k: int| 0 <= k < end ==> !glob_meta()(#[trigger] glob@[k]),
        decreases glob.len() - end,
    {
        end += 1;
    }
    proof {
        crate::text::lemma_first_where(glob@, glob_meta(), end as int);
        if end == glob@.len() {
            assert(glob@.take(end as int) =~= glob@);
        }
    }
    let ghost literal = glob@.take(end as int);
    let mut i = end;
    while i > 0 && glob[i - 1] != '/'
        invariant
            i <= end <= glob.len(),
            literal == glob@.take(end as int),
            last_slash(literal) == last_slash(glob@.take(i as int)),
        decreases i,
    {
        proof {
            assert(glob@.take(i as int).drop_last() =~= glob@.take(i - 1));
        }
        i -= 1;
    }
    if i == 0 {
        "hubs".to_owned()
    } else {
        proof {
            assert(glob@.take(i as int).last() == '/');
            assert(glob@.take(i as int).take(i - 1) =~= glob@.subrange(0, i - 1));
        }
        string_of(&glob, 0, i - 1)
    }
}

/// The text of a new, empty hub named `name`: no anchors yet, so it lints clean at once.
pub open spec fn template_spec(name: Seq<char>) -> Seq<char> {
    "---\nsummary: TODO one-line summary of this domain.\nanchors: []\nrefs: []\n---\n\n# "@ + name
        + "\n\nTODO: prose. Add anchors in the frontmatter above, e.g.\n\n    anchors:\n      - claim: the invariant, in prose\n        at: path/to/file.rs > symbolName\n\nthen run `surf verify` to stamp the hash.\n"@
}

/// The text of a new hub (see `template_spec`).
pub fn template(name: &str) -> (s: String)
    ensures
        s@ == template_spec(name@),
{
    let mut s = "---\nsummary: TODO one-line summary of this domain.\nanchors: []\nrefs: []\n---\n\n# ".to_owned();
    s.push_str(name);
    s.push_str(
        "\n\nTODO: prose. Add anchors in the frontmatter above, e.g.\n\n    anchors:\n      - claim: the invariant, in prose\n        at: path/to/file.rs > symbolName\n\nthen run `surf verify` to stamp the hash.\n",
    );
    s
}

/// `p` without its trailing `/`s.
pub open spec fn without_trailing_slashes(p: Seq<char>) -> Seq<char>
    decreases p.len(),
{
    if p.len() > 0 && p.last() == '/' {
        without_trailing_slashes(p.drop_last())
    } else {
        p
    }
}

/// `p` without its leading `/`s.
pub open spec fn without_leading_slashes(p: Seq<char>) -> Seq<char>
    decreases p.len(),
{
    if p.len() > 0 && p[0] == '/' {
        without_leading_slashes(p.drop_first())
    } else {
        p
    }
}

/// A queried path in the form anchors are written in: one leading `./` dropped, and an
/// absolute path inside the root (the root itself, or the root followed by `/`) made
/// relative to it; anything else is taken as already relative to the root.
pub open spec fn normalize_spec(root: Seq<char>, path: Seq<char>) -> Seq<char> {
    let p = if path.len() >= 2 && path[0] == '.' && path[1] == '/' { path.skip(2) } else { path };
    let r = without_trailing_slashes(root);
    if p.len() > 0 && p[0] == '/' && r.len() > 0 && r[0] == '/' {
        if p == r {
            Seq::empty()
        } else if p.len() > r.len() && p.take(r.len() as int) == r && p[r.len() as int] == '/' {
            without_leading_slashes(p.skip(r.len() as int))
        } else {
            p
        }
    } else {
        p
    }
}

/// The queried path in workspace-relative form (see `normalize_spec`).
pub fn normalize(root: &str, path: &str) -> (s: String)
    ensures
        s@ == normalize_spec(root@, path@),
{
    let v = chars_of(path);
    let start: usize = if v.len() >= 2 && v[0] == '.' && v[1] == '/' { 2 } else { 0 };
    let ghost p = v@.skip(start as int);
    proof {
        if start == 0 {
            assert(v@.skip(0) =~= v@);
        }
    }
    let rv = chars_of(root);
    let mut re = rv.len();
    proof {
        assert(rv@.take(rv@.len() as int) =~= root@);
    }
    while re > 0 && rv[re - 1] == '/'
        invariant
            re <= rv.len(),
            without_trailing_slashes(root@) == without_trailing_slashes(rv@.take(re as int)),
        decreases re,
    {
        proof {
            assert(rv@.take(re as int).drop_last() =~= rv@.take(re - 1));
        }
        re -= 1;
    }
    proof {
        assert(rv@.take(rv@.len() as int) =~= root@);
        assert(re == 0 || rv@.take(re as int).last() != '/');
        assert(without_trailing_slashes(rv@.take(re as int)) == rv@.take(re as int));
    }
    let ghost r = rv@.take(re as int);
    let plen = v.len() - start;
    if plen > 0 && v[start] == '/' && re > 0 && rv[0] == '/' {
        let same_prefix = plen >= re && crate::text::ranges_equal(&v, start, start + re, &rv, 0, re);
        proof {
            assert(rv@.subrange(0, re as int) =~= r);
            if plen >= re {
                assert(p.take(re as int) =~= v@.subrange(start as int, start + re));
            }
        }
        if same_prefix && plen == re {
            proof {
                assert(p =~= p.take(re as int));
            }
            return String::new();
        }
        if same_prefix && plen > re && v[start + re] == '/' {
            let mut a = start + re;
            proof {
                assert(p.skip(re as int) =~= v@.skip(a as int));
            }
            while a < v.len() && v[a] == '/'
                invariant
                    start + re <= a <= v.len(),
                    without_leading_slashes(p.skip(re as int)) == without_leading_slashes(v@.skip(a as int)),
                decreases v.len() - a,
            {
                proof {
                    assert(v@.skip(a as int).drop_first() =~= v@.skip(a + 1));
                }
                a += 1;
            }
            proof {
                assert(v@.skip(a as int) =~= v@.subrange(a as int, v@.len() as int));
            }
            return string_of(&v, a, v.len());
        }
        proof {
            if plen > re && p.take(re as int) == r && p[re as int] == '/' {
                assert(p[re as int] == v@[start + re]);
            }
            if p == r {
                assert(p.len() == r.len());
                assert(p.take(re as int) =~= p);
            }
        }
    }
    proof {
        assert(v@.subrange(start as int, v@.len() as int) =~= p);
    }
    string_of(&v, start, v.len())
}

/// One claim anchored into the queried file.
pub struct ForMatch {
    pub hub: String,
    pub at: String,
    pub claim: String,
}

pub struct ForMatchModel {
    pub hub: Seq<char>,
    pub at: Seq<char>,
    pub claim: Seq<char>,
}

impl View for ForMatch {
    type V = ForMatchModel;

    open spec fn view(&self) -> ForMatchModel {
        ForMatchModel { hub: self.hub@, at: self.at@, claim: self.claim@ }
    }
}

pub open spec fn matches_view(v: Seq<ForMatch>) -> Seq<ForMatchModel> {
    v.map_values(|m: ForMatch| m@)
}

/// A site anchored into `query` (and, when a symbol is given, at a path whose first segment
/// names it).
pub open spec fn site_matches(site: Seq<char>, query: Seq<char>, symbol: Option<Seq<char>>) -> bool {
    match spec_parse_anchor(site) {
        Err(_) => false,
        Ok(a) => a.file == query && match symbol {
            None => true,
            Some(s) => a.segments.len() > 0 && a.segments[0].name == s,
        },
    }
}

/// The matches among the first `k` sites of a claim of `hub`, in order.
pub open spec fn claim_matches(hub: Seq<char>, c: ClaimModel, query: Seq<char>, symbol: Option<Seq<char>>, k: int) -> Seq<ForMatchModel>
    decreases k,
{
    if k <= 0 {
        Seq::empty()
    } else {
        claim_matches(hub, c, query, symbol, k - 1) + if site_matches(c.sites[k - 1], query, symbol) {
            seq![ForMatchModel { hub, at: c.sites[k - 1], claim: trim(c.claim) }]
        } else {
            Seq::empty()
        }
    }
}

/// Appends the claim's sites anchored into `query` (see `claim_matches`).
pub fn claim_for(hub: &str, claim: &Claim, query: &str, symbol: Option<&str>, out: &mut Vec<ForMatch>)
    ensures
        matches_view(final(out)@) == matches_view(old(out)@) + claim_matches(
            hub@,
            claim@,
            query@,
            crate::lint::opt_str_view(symbol),
            claim@.sites.len() as int,
        ),
{
    let sites = claim.at.sites();
    proof {
        assert(views(sites@) =~= claim@.sites);
    }
    let ghost start = matches_view(out@);
    let ghost sym = crate::lint::opt_str_view(symbol);
    let mut k: usize = 0;
    while k < sites.len()
        invariant
            k <= sites@.len(),
            views(sites@) == claim@.sites,
            sym == crate::lint::opt_str_view(symbol),
            matches_view(out@) == start + claim_matches(hub@, claim@, query@, sym, k as int),
        decreases sites.len() - k,
    {
        proof {
            assert(claim@.sites[k as int] == sites@[k as int]@);
        }
        let hit = match parse_anchor(sites[k].as_str()) {
            Err(_) => false,
            Ok(a) => str_eq(a.file.as_str(), query) && match symbol {
                None => true,
                Some(s) => a.segments.len() > 0 && str_eq(a.segments[0].name.as_str(), s),
            },
        };
        if hit {
            let m = ForMatch { hub: hub.to_owned(), at: sites[k].clone(), claim: trim_string(claim.claim.as_str()) };
            proof {
                assert(matches_view(out@.push(m)) =~= matches_view(out@).push(m@));
            }
            out.push(m);
        } else {
            proof {
                assert(matches_view(out@) + Seq::<ForMatchModel>::empty() =~= matches_view(out@));
            }
        }
        k += 1;
    }
}

/// Ordered by hub, then by anchor.
pub open spec fn match_lt(a: ForMatchModel, b: ForMatchModel) -> bool {
    text_lt(a.hub, b.hub) || (a.hub == b.hub && text_lt(a.at, b.at))
}

pub open spec fn sorted_matches(s: Seq<ForMatchModel>) -> bool {
    forall|a: int, b: int| 0 <= a < b < s.len() ==> !match_lt(#[trigger] s[b], #[trigger] s[a])
}

fn match_less(a: &ForMatch, b: &ForMatch) -> (r: bool)
    ensures
        r == match_lt(a@, b@),
{
    text_less(&a.hub, &b.hub) || (str_eq(a.hub.as_str(), b.hub.as_str()) && text_less(&a.at, &b.at))
}

proof fn lemma_match_lt_trans(a: ForMatchModel, b: ForMatchModel, c: ForMatchModel)
    requires
        !match_lt(b, a),
        !match_lt(c, b),
    ensures
        !match_lt(c, a),
{
    lemma_text_lt_total(a.hub, b.hub);
    lemma_text_lt_total(b.hub, c.hub);
    lemma_text_lt_total(a.at, b.at);
    lemma_text_lt_total(b.at, c.at);
    if match_lt(c, a) {
        if text_lt(c.hub, a.hub) {
            if text_lt(a.hub, b.hub) {
                lemma_text_lt_trans(c.hub, a.hub, b.hub);
                if text_lt(b.hub, c.hub) {
                    lemma_text_lt_trans(c.hub, b.hub, c.hub);
                    lemma_text_lt_irrefl(c.hub);
                }
            } else if a.hub == b.hub {
                if text_lt(b.hub, c.hub) {
                    lemma_text_lt_trans(c.hub, a.hub, c.hub);
                    lemma_text_lt_irrefl(c.hub);
                }
            }
        } else {
            if text_lt(a.hub, b.hub) {
                if text_lt(b.hub, c.hub) {
                    lemma_text_lt_trans(a.hub, b.hub, c.hub);
                    lemma_text_lt_irrefl(c.hub);
                }
            } else {
                if c.hub == b.hub {
                    lemma_text_lt_trans(c.at, a.at, b.at);
                    if text_lt(b.at, c.at) {
                        lemma_text_lt_trans(c.at, b.at, c.at);
                        lemma_text_lt_irrefl(c.at);
                    }
                }
            }
        }
    }
}

proof fn lemma_match_lt_strict(a: ForMatchModel, b: ForMatchModel, c: ForMatchModel)
    requires
        match_lt(a, b),
        match_lt(b, c),
    ensures
        match_lt(a, c),
{
    if text_lt(a.hub, b.hub) && text_lt(b.hub, c.hub) {
        lemma_text_lt_trans(a.hub, b.hub, c.hub);
    } else if text_lt(a.hub, b.hub) {
    } else if text_lt(b.hub, c.hub) {
    } else {
        lemma_text_lt_trans(a.at, b.at, c.at);
    }
}

proof fn lemma_match_lt_asym(a: ForMatchModel, b: ForMatchModel)
    requires
        match_lt(a, b),
    ensures
        !match_lt(b, a),
{
    if match_lt(b, a) {
        lemma_match_lt_strict(a, b, a);
        lemma_text_lt_irrefl(a.hub);
        lemma_text_lt_irrefl(a.at);
    }
}

pub open spec fn above(x: ForMatchModel) -> spec_fn(ForMatchModel) -> bool {
    |y: ForMatchModel| match_lt(x, y)
}

/// `s` with `x` inserted before its first element ordered after `x`: after every element
/// equal to it.
pub open spec fn insert_match(s: Seq<ForMatchModel>, x: ForMatchModel) -> Seq<ForMatchModel> {
    match first_where(s, above(x)) {
        Some(p) => s.insert(p, x),
        None => s.push(x),
    }
}

/// The first `k` matches sorted by insertion, in order: a stable sort.
pub open spec fn sort_matches_spec(s: Seq<ForMatchModel>, k: int) -> Seq<ForMatchModel>
    decreases k,
{
    if k <= 0 {
        Seq::empty()
    } else {
        insert_match(sort_matches_spec(s, k - 1), s[k - 1])
    }
}

/// Sorts the matches by hub, then by anchor, keeping the order of equal ones.
pub fn sort_matches(v: Vec<ForMatch>) -> (r: Vec<ForMatch>)
    ensures
        matches_view(r@) == sort_matches_spec(matches_view(v@), v@.len() as int),
        sorted_matches(matches_view(r@)),
        matches_view(r@).to_multiset() == matches_view(v@).to_multiset(),
{
    broadcast use vstd::seq_lib::group_to_multiset_ensures;
    let ghost vs = matches_view(v@);
    let mut out: Vec<ForMatch> = Vec::new();
    let mut rest = v;
    let n = rest.len();
    let mut i: usize = 0;
    proof {
        assert(matches_view(rest@) =~= vs.skip(0));
        assert(vs.take(0) =~= Seq::<ForMatchModel>::empty());
    }
    while i < n
        invariant
            i <= n == vs.len(),
            rest@.len() == n - i,
            matches_view(rest@) == vs.skip(i as int),
            sorted_matches(matches_view(out@)),
            matches_view(out@) == sort_matches_spec(vs, i as int),
            matches_view(out@).to_multiset() == vs.take(i as int).to_multiset(),
        decreases n - i,
    {
        let ghost before = rest@;
        let x = rest.remove(0);
        proof {
            assert(x == before[0]);
            assert(matches_view(before)[0] == before[0]@);
            assert(vs.skip(i as int)[0] == vs[i as int]);
            assert(rest@ =~= before.drop_first());
            assert(matches_view(rest@) =~= matches_view(before).drop_first());
            assert(vs.skip(i as int).drop_first() =~= vs.skip(i + 1));
        }
        let ghost ov = matches_view(out@);
        let mut pos: usize = 0;
        while pos < out.len() && !match_less(&x, &out[pos])
            invariant
                pos <= out@.len(),
                ov == matches_view(out@),
                forall|k: int| 0 <= k < pos ==> !match_lt(x@, #[trigger] ov[k]),
            decreases out.len() - pos,
        {
            pos += 1;
        }
        proof {
            assert forall|b: int| pos <= b < ov.len() implies !match_lt(#[trigger] ov[b], x@) by {
                assert(match_lt(x@, ov[pos as int]));
                if match_lt(ov[b], x@) {
                    if b == pos {
                        lemma_match_lt_asym(x@, ov[pos as int]);
                    } else {
                        lemma_match_lt_strict(ov[b], x@, ov[pos as int]);
                    }
                }
            }
        }
        out.insert(pos, x);
        proof {
            let fin = matches_view(out@);
            assert(fin =~= ov.insert(pos as int, vs[i as int]));
            assert forall|k: int| 0 <= k < pos implies !above(x@)(#[trigger] ov[k]) by {}
            lemma_first_where(ov, above(x@), pos as int);
            if pos == ov.len() {
                assert(ov.insert(pos as int, x@) =~= ov.push(x@));
            }
            assert(fin == insert_match(ov, vs[i as int]));
            vstd::seq_lib::to_multiset_insert(ov, pos as int, vs[i as int]);
            assert(vs.take(i + 1) =~= vs.take(i as int).push(vs[i as int]));
            vstd::seq_lib::to_multiset_build(vs.take(i as int), vs[i as int]);
            assert(fin.to_multiset() =~= vs.take(i + 1).to_multiset());
            assert forall|a: int, b: int| 0 <= a < b < fin.len() implies !match_lt(#[trigger] fin[b], #[trigger] fin[a]) by {
                if a < pos && b > pos {
                    lemma_match_lt_trans(fin[a], x@, fin[b]);
                } else if a < pos && b == pos {
                } else if a == pos {
                } else if a > pos {
                    assert(fin[a] == ov[a - 1]);
                    assert(fin[b] == ov[b - 1]);
                } else {
                    assert(fin[a] == ov[a]);
                    assert(fin[b] == ov[b]);
                }
            }
        }
        i += 1;
    }
    proof {
        assert(vs.take(i as int) =~= vs);
    }
    out
}

} // verus!
