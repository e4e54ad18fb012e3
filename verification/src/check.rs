//! Checking claims. For each claim in scope: resolve every anchored site, fingerprint it, combine the
//! fingerprints and compare with the stored one. A claim whose sites do not all resolve is
//! unresolvable; one never stamped is unverified; one whose fingerprint moved has changed.
//! The verdict needs no history: the previous code and the magnitude of a change are advisory
//! and supplied, when available, from an older source of the same file.
//!
//! Reading files and asking version control are the caller's; this module decides.

use vstd::prelude::*;
use crate::anchor::{Anchor, AnchorModel, parse_anchor, spec_parse_anchor, anchor_error_text};
use crate::lang::{Lang, spec_lang_of_path};
use crate::hub::{Claim, ClaimModel, HubError};
use crate::hash::{HashOpts, Magnitude, combined, spec_hash_anchor, spec_diff_magnitude, hash_anchor_with, combine_site_hashes, diff_magnitude, tokens_view};
use crate::report::{Divergence, DivergenceKind, DivergenceModel};
use crate::resolve::{Span, ResolveErrorModel, resolve, spec_resolve, resolve_error_text, anchor_ok};
use crate::syntax::{byte_text, byte_range_text, opt_view};
use crate::text::{trim, join_text, views, join_strings, trim_string};

verus! {

broadcast use vstd::std_specs::vec::group_vec_axioms, vstd::seq::group_seq_axioms;

/// What a site names: its parsed anchor and the language of its file, or why it names nothing.
pub open spec fn site_target_spec(site: Seq<char>) -> Result<(AnchorModel, Lang), Seq<char>> {
    match spec_parse_anchor(site) {
        Err(e) => Err("invalid anchor: "@ + anchor_error_text(e)),
        Ok(a) => match spec_lang_of_path(a.file) {
            None => Err("unsupported file type: "@ + a.file),
            Some(l) => Ok((a, l)),
        },
    }
}

/// Parses a site and recognizes the language of its file.
pub fn site_target(site: &str) -> (r: Result<(Anchor, Lang), String>)
    ensures
        match r {
            Ok((a, l)) => site_target_spec(site@) == Ok::<(AnchorModel, Lang), Seq<char>>((a@, l)) && anchor_ok(a@),
            Err(m) => site_target_spec(site@) == Err::<(AnchorModel, Lang), Seq<char>>(m@),
        },
{
    match parse_anchor(site) {
        Err(e) => {
            let mut m = "invalid anchor: ".to_owned();
            m.push_str(e.message().as_str());
            Err(m)
        },
        Ok(a) => match Lang::from_path(a.file.as_str()) {
            None => {
                let mut m = "unsupported file type: ".to_owned();
                m.push_str(a.file.as_str());
                Err(m)
            },
            Some(l) => Ok((a, l)),
        },
    }
}

/// The message for a file that could not be read.
pub open spec fn unreadable_text(file: Seq<char>) -> Seq<char> {
    "cannot read `"@ + file + "`"@
}

/// One site of a claim, given the text of its file (`None` when it could not be read): its
/// fingerprint and span, or why it does not resolve.
pub open spec fn site_result(site: Seq<char>, read: Option<Seq<char>>, opts: HashOpts) -> Result<(Seq<char>, Span), Seq<char>> {
    match site_target_spec(site) {
        Err(m) => Err(m),
        Ok((a, lang)) => match read {
            None => Err(unreadable_text(a.file)),
            Some(src) => match spec_resolve(src, lang, a) {
                Err(e) => Err(resolve_error_text(e)),
                Ok(span) => match spec_hash_anchor(src, lang, a, opts) {
                    Err(e) => Err(resolve_error_text(e)),
                    Ok(h) => Ok((h, span)),
                },
            },
        },
    }
}

/// The first `k` sites in order: every result, or the first failure.
pub open spec fn site_results(sites: Seq<Seq<char>>, reads: Seq<Option<Seq<char>>>, opts: HashOpts, k: int) -> Result<Seq<(Seq<char>, Span)>, Seq<char>>
    decreases k,
{
    if k <= 0 {
        Ok(Seq::empty())
    } else {
        match site_results(sites, reads, opts, k - 1) {
            Err(m) => Err(m),
            Ok(prev) => match site_result(sites[k - 1], reads[k - 1], opts) {
                Err(m) => Err(m),
                Ok(x) => Ok(prev.push(x)),
            },
        }
    }
}

/// How the sites of a claim are shown together.
pub open spec fn site_display(sites: Seq<Seq<char>>) -> Seq<char> {
    join_text(sites, "  +  "@)
}

pub open spec fn divergence(
    hub: Seq<char>,
    c: ClaimModel,
    kind: DivergenceKind,
    old_hash: Option<Seq<char>>,
    new_hash: Option<Seq<char>>,
    new_code: Option<Seq<char>>,
    detail: Option<Seq<char>>,
) -> DivergenceModel {
    DivergenceModel {
        hub,
        claim: trim(c.claim),
        at: site_display(c.sites),
        kind,
        old_hash,
        new_hash,
        old_code: None,
        new_code,
        prose: trim(c.claim),
        magnitude: None,
        detail,
    }
}

/// The verdict on one claim of `hub`, given the text of each site's file: `None` when clean.
/// A claim whose sites do not all resolve is unresolvable (with the first failure as detail
/// and the stored fingerprint kept); otherwise the combined fingerprint is compared with the
/// stored one. For a single-site claim the current code of the span is attached.
pub open spec fn claim_verdict(hub: Seq<char>, c: ClaimModel, reads: Seq<Option<Seq<char>>>) -> Option<DivergenceModel> {
    let opts = HashOpts { ignore_literals: c.ignore_literals };
    match site_results(c.sites, reads, opts, c.sites.len() as int) {
        Err(m) => Some(divergence(hub, c, DivergenceKind::Unresolvable, c.hash, None, None, Some(m))),
        Ok(rs) => {
            let new_hash = combined(rs.map_values(|x: (Seq<char>, Span)| x.0));
            let code = if c.sites.len() == 1 {
                match reads[0] {
                    Some(src) => byte_text(src, rs[0].1.start_byte as nat, rs[0].1.end_byte as nat),
                    None => None,
                }
            } else {
                None
            };
            match c.hash {
                None => Some(divergence(hub, c, DivergenceKind::Unverified, None, Some(new_hash), code, None)),
                Some(stored) => if stored == new_hash {
                    None
                } else {
                    Some(divergence(hub, c, DivergenceKind::Changed, Some(stored), Some(new_hash), code, None))
                },
            }
        },
    }
}

pub open spec fn reads_view(reads: Seq<Option<String>>) -> Seq<Option<Seq<char>>> {
    reads.map_values(|r: Option<String>| opt_view(r))
}

fn clone_opt_string(o: &Option<String>) -> (r: Option<String>)
    ensures
        opt_view(r) == opt_view(*o),
{
    match o {
        Some(s) => Some(s.clone()),
        None => None,
    }
}

/// The verdict on one claim of `hub` (see `claim_verdict`), given for each of its sites the
/// text of the site's file, or `None` where it could not be read.
pub fn check_claim(hub: &str, claim: &Claim, reads: &Vec<Option<String>>) -> (r: Option<Divergence>)
    requires
        reads@.len() == claim@.sites.len(),
    ensures
        match r {
            Some(d) => claim_verdict(hub@, claim@, reads_view(reads@)) == Some(d@),
            None => claim_verdict(hub@, claim@, reads_view(reads@)) is None,
        },
{
    let ghost c = claim@;
    let ghost rv = reads_view(reads@);
    let opts = HashOpts { ignore_literals: claim.ignore_literals };
    let sites = claim.at.sites();
    proof {
        assert(views(sites@) =~= c.sites);
    }
    let prose = trim_string(claim.claim.as_str());
    let at = join_strings(sites, "  +  ");
    let mut hashes: Vec<String> = Vec::new();
    let mut spans: Vec<Span> = Vec::new();
    let mut k: usize = 0;
    proof {
        assert(Seq::new(0nat, |i: int| (hashes@[i]@, spans@[i])) =~= Seq::<(Seq<char>, Span)>::empty());
    }
    while k < sites.len()
        invariant
            k <= sites@.len() == c.sites.len() == reads@.len(),
            c == claim@,
            prose@ == trim(c.claim),
            at@ == site_display(c.sites),
            rv == reads_view(reads@),
            views(sites@) == c.sites,
            opts == (HashOpts { ignore_literals: c.ignore_literals }),
            hashes@.len() == k,
            spans@.len() == k,
            site_results(c.sites, rv, opts, k as int) == Ok::<Seq<(Seq<char>, Span)>, Seq<char>>(
                Seq::new(k as nat, |i: int| (hashes@[i]@, spans@[i])),
            ),
        decreases sites.len() - k,
    {
        let ghost prev = Seq::new(k as nat, |i: int| (hashes@[i]@, spans@[i]));
        proof {
            assert(c.sites[k as int] == sites@[k as int]@);
            assert(rv[k as int] == opt_view(reads@[k as int]));
        }
        let failure: Option<String> = match site_target(sites[k].as_str()) {
            Err(m) => Some(m),
            Ok((anchor, lang)) => match &reads[k] {
                None => {
                    let mut m = "cannot read `".to_owned();
                    m.push_str(anchor.file.as_str());
                    m.push_str("`");
                    Some(m)
                },
                Some(src) => match resolve(src.as_str(), lang, &anchor) {
                    Err(e) => Some(e.message()),
                    Ok(span) => match hash_anchor_with(src.as_str(), lang, &anchor, opts) {
                        Err(e) => Some(e.message()),
                        Ok(h) => {
                            proof {
                                assert(site_result(c.sites[k as int], rv[k as int], opts) == Ok::<(Seq<char>, Span), Seq<char>>((h@, span)));
                            }
                            hashes.push(h);
                            spans.push(span);
                            None
                        },
                    },
                },
            },
        };
        match failure {
            Some(m) => {
                proof {
                    assert(site_results(c.sites, rv, opts, k + 1) == Err::<Seq<(Seq<char>, Span)>, Seq<char>>(m@));
                    lemma_site_results_err(c.sites, rv, opts, k + 1, c.sites.len() as int);
                }
                let d = Divergence {
                    hub: hub.to_owned(),
                    claim: prose.clone(),
                    at,
                    kind: DivergenceKind::Unresolvable,
                    old_hash: clone_opt_string(&claim.hash),
                    new_hash: None,
                    old_code: None,
                    new_code: None,
                    prose,
                    magnitude: None,
                    detail: Some(m),
                };
                proof {
                    assert(d@ == divergence(hub@, c, DivergenceKind::Unresolvable, c.hash, None, None, Some(m@)));
                }
                return Some(d);
            },
            None => {
                proof {
                    assert(Seq::new((k + 1) as nat, |i: int| (hashes@[i]@, spans@[i])) =~= prev.push((hashes@[k as int]@, spans@[k as int])));
                }
            },
        }
        k += 1;
    }
    let ghost rs = Seq::new(k as nat, |i: int| (hashes@[i]@, spans@[i]));
    proof {
        assert(rs.map_values(|x: (Seq<char>, Span)| x.0) =~= tokens_view(hashes@));
    }
    let new_hash = combine_site_hashes(&hashes);
    let code = if sites.len() == 1 {
        match &reads[0] {
            Some(src) => byte_range_text(src.as_str(), spans[0].start_byte, spans[0].end_byte),
            None => None,
        }
    } else {
        None
    };
    match &claim.hash {
        None => Some(Divergence {
            hub: hub.to_owned(),
            claim: prose.clone(),
            at,
            kind: DivergenceKind::Unverified,
            old_hash: None,
            new_hash: Some(new_hash),
            old_code: None,
            new_code: code,
            prose,
            magnitude: None,
            detail: None,
        }),
        Some(stored) => {
            if crate::text::str_eq(stored.as_str(), new_hash.as_str()) {
                None
            } else {
                Some(Divergence {
                    hub: hub.to_owned(),
                    claim: prose.clone(),
                    at,
                    kind: DivergenceKind::Changed,
                    old_hash: Some(stored.clone()),
                    new_hash: Some(new_hash),
                    old_code: None,
                    new_code: code,
                    prose,
                    magnitude: None,
                    detail: None,
                })
            }
        },
    }
}

proof fn lemma_site_results_err(sites: Seq<Seq<char>>, reads: Seq<Option<Seq<char>>>, opts: HashOpts, k: int, n: int)
    requires
        1 <= k <= n,
        site_results(sites, reads, opts, k) is Err,
    ensures
        site_results(sites, reads, opts, n) == site_results(sites, reads, opts, k),
    decreases n - k,
{
    if n > k {
        lemma_site_results_err(sites, reads, opts, k, n - 1);
    }
}

/// The advisory enrichment of a changed single-site claim from an older source of its file:
/// the code the anchor resolved to there, and the magnitude of the change to `current`.
pub open spec fn enrichment_spec(old_source: Seq<char>, current: Seq<char>, lang: Lang, anchor: AnchorModel) -> (Option<Seq<char>>, Option<Magnitude>) {
    (
        match spec_resolve(old_source, lang, anchor) {
            Ok(sp) => byte_text(old_source, sp.start_byte as nat, sp.end_byte as nat),
            Err(_) => None,
        },
        match spec_diff_magnitude(old_source, current, lang, anchor) {
            Ok(m) => Some(m),
            Err(_) => None,
        },
    )
}

/// Attaches to a divergence the previous code and the magnitude recovered from `old_source`.
pub fn enrich(d: &mut Divergence, old_source: &str, current: &str, lang: Lang, anchor: &Anchor)
    requires
        anchor_ok(anchor@),
    ensures
        final(d)@ == (DivergenceModel {
            old_code: enrichment_spec(old_source@, current@, lang, anchor@).0,
            magnitude: enrichment_spec(old_source@, current@, lang, anchor@).1,
            ..old(d)@
        }),
{
    let old_code = match resolve(old_source, lang, anchor) {
        Ok(sp) => byte_range_text(old_source, sp.start_byte, sp.end_byte),
        Err(_) => None,
    };
    let magnitude = match diff_magnitude(old_source, current, lang, anchor) {
        Ok(m) => Some(m),
        Err(_) => None,
    };
    d.old_code = old_code;
    d.magnitude = magnitude;
}

/// Whether a divergence is enriched from an older source: only a changed claim with a single
/// site is.
pub fn wants_enrichment(claim: &Claim, d: &Divergence) -> (b: bool)
    ensures
        b == (d.kind == DivergenceKind::Changed && claim@.sites.len() == 1),
{
    let changed = match d.kind {
        DivergenceKind::Changed => true,
        _ => false,
    };
    changed && claim.at.sites().len() == 1
}

/// The divergence that stands for a hub that cannot be read: checking fails closed, since an
/// unreadable hub is unenforceable, not clean.
pub fn malformed_hub_divergence(hub: &str, err: &HubError) -> (d: Divergence)
    ensures
        d@ == (DivergenceModel {
            hub: hub@,
            claim: Seq::empty(),
            at: Seq::empty(),
            kind: DivergenceKind::Unresolvable,
            old_hash: None,
            new_hash: None,
            old_code: None,
            new_code: None,
            prose: Seq::empty(),
            magnitude: None,
            detail: Some("invalid hub: "@ + crate::hub::hub_error_text(*err)),
        }),
{
    let mut detail = "invalid hub: ".to_owned();
    detail.push_str(err.message().as_str());
    Divergence {
        hub: hub.to_owned(),
        claim: String::new(),
        at: String::new(),
        kind: DivergenceKind::Unresolvable,
        old_hash: None,
        new_hash: None,
        old_code: None,
        new_code: None,
        prose: String::new(),
        magnitude: None,
        detail: Some(detail),
    }
}

/// `glob::Pattern::new(pattern)` succeeds.
pub uninterp spec fn glob_valid(pattern: Seq<char>) -> bool;

/// `glob::Pattern::matches(path)` for the pattern compiled from `pattern`.
pub uninterp spec fn glob_match(pattern: Seq<char>, path: Seq<char>) -> bool;

/// The message of the error `glob::Pattern::new(pattern)` gives (its `Display`): a function
/// of the pattern alone.
pub uninterp spec fn glob_error_text(pattern: Seq<char>) -> Seq<char>;

/// `glob::Pattern::new`: `None` when the pattern compiles, else the crate's error message.
#[verifier::external_body]
pub(crate) fn glob_error(pattern: &str) -> (r: Option<String>)
    ensures
        r is None <==> glob_valid(pattern@),
        r matches Some(m) ==> m@ == glob_error_text(pattern@),
{
    glob::Pattern::new(pattern).err().map(|e| e.to_string())
}

/// `glob::Pattern::new(pattern)` then `Pattern::matches(path)`.
#[verifier::external_body]
pub(crate) fn glob_matches(pattern: &str, path: &str) -> (b: bool)
    requires
        glob_valid(pattern@),
    ensures
        b == glob_match(pattern@, path@),
{
    glob::Pattern::new(pattern).map(|p| p.matches(path)).unwrap_or(false)
}

/// The files named by the sites whose anchors parse, in order.
pub open spec fn anchor_files(sites: Seq<Seq<char>>) -> Seq<Seq<char>>
    decreases sites.len(),
{
    if sites.len() == 0 {
        Seq::empty()
    } else {
        anchor_files(sites.drop_last()) + match spec_parse_anchor(sites.last()) {
            Ok(a) => seq![a.file],
            Err(_) => Seq::empty(),
        }
    }
}

/// Some file matches the pattern.
pub open spec fn any_match(pattern: Seq<char>, files: Seq<Seq<char>>) -> bool {
    exists|i: int| 0 <= i < files.len() && glob_match(pattern, #[trigger] files[i])
}

/// Which claims a check evaluates: those whose files match one of the `--files` patterns
/// (when any are given) and, when a set of changed files is known, that anchor a changed file.
/// Each pattern remembers whether it ever matched an anchored file.
pub struct Scope {
    changed: Option<Vec<String>>,
    patterns: Vec<String>,
    matched: Vec<bool>,
}

impl Scope {
    pub closed spec fn changed_files(&self) -> Option<Seq<Seq<char>>> {
        match self.changed {
            Some(v) => Some(views(v@)),
            None => None,
        }
    }

    pub closed spec fn patterns(&self) -> Seq<Seq<char>> {
        views(self.patterns@)
    }

    pub closed spec fn matched(&self) -> Seq<bool> {
        self.matched@
    }

    /// Every pattern compiles and has its flag.
    pub closed spec fn wf(&self) -> bool {
        &&& self.matched@.len() == self.patterns@.len()
        &&& forall|j: int| 0 <= j < self.patterns@.len() ==> glob_valid(#[trigger] self.patterns@[j]@)
    }

    /// A scope from the changed files (when known) and the `--files` patterns; an error names
    /// the first pattern that does not compile.
    pub fn build(changed: Option<Vec<String>>, files: &Vec<String>) -> (r: Result<Scope, String>)
        ensures
            match r {
                Ok(s) => s.wf() && s.patterns() == views(files@) && s.matched() == Seq::new(files@.len(), |j: int| false)
                    && s.changed_files() == match changed {
                    Some(v) => Some(views(v@)),
                    None => None::<Seq<Seq<char>>>,
                },
                Err(m) => exists|j: int| 0 <= j < files@.len() && !glob_valid(#[trigger] files@[j]@)
                    && (forall|i: int| 0 <= i < j ==> glob_valid(#[trigger] files@[i]@))
                    && m@ == "invalid --files glob \""@ + files@[j]@ + "\": "@ + glob_error_text(files@[j]@),
            },
    {
        let mut patterns: Vec<String> = Vec::new();
        let mut matched: Vec<bool> = Vec::new();
        let mut k: usize = 0;
        while k < files.len()
            invariant
                k <= files@.len(),
                views(patterns@) == views(files@).take(k as int),
                patterns@.len() == k,
                forall|i: int| 0 <= i < k ==> (#[trigger] patterns@[i])@ == files@[i]@,
                matched@ == Seq::new(k as nat, |j: int| false),
                forall|i: int| 0 <= i < k ==> glob_valid(#[trigger] files@[i]@),
            decreases files.len() - k,
        {
            match glob_error(files[k].as_str()) {
                Some(e) => {
                    let mut m = "invalid --files glob \"".to_owned();
                    m.push_str(files[k].as_str());
                    m.push_str("\": ");
                    m.push_str(e.as_str());
                    proof {
                        assert(m@ =~= "invalid --files glob \""@ + files@[k as int]@ + "\": "@ + e@);
                    }
                    return Err(m);
                },
                None => {},
            }
            let p = files[k].clone();
            proof {
                assert(views(patterns@.push(p)) =~= views(patterns@).push(p@));
                assert(views(files@).take(k + 1) =~= views(files@).take(k as int).push(files@[k as int]@));
                assert(matched@.push(false) =~= Seq::new((k + 1) as nat, |j: int| false));
            }
            patterns.push(p);
            matched.push(false);
            k += 1;
        }
        proof {
            assert(views(files@).take(k as int) =~= views(files@));
        }
        Ok(Scope { changed, patterns, matched })
    }

    /// Whether the claim is in scope; marks each pattern that matches one of its files.
    pub fn includes(&mut self, claim: &Claim) -> (r: bool)
        requires
            old(self).wf(),
        ensures
            final(self).wf(),
            final(self).patterns() == old(self).patterns(),
            final(self).changed_files() == old(self).changed_files(),
            final(self).matched() == Seq::new(
                old(self).matched().len(),
                |j: int| old(self).matched()[j] || any_match(old(self).patterns()[j], anchor_files(claim@.sites)),
            ),
            r == ((old(self).patterns().len() == 0 || exists|j: int|
                0 <= j < old(self).patterns().len() && any_match(#[trigger] old(self).patterns()[j], anchor_files(claim@.sites)))
                && match old(self).changed_files() {
                None => true,
                Some(ch) => exists|i: int| 0 <= i < anchor_files(claim@.sites).len() && ch.contains(
                    #[trigger] anchor_files(claim@.sites)[i],
                ),
            }),
    {
        let ghost c = claim@;
        let sites = claim.at.sites();
        proof {
            assert(views(sites@) =~= c.sites);
        }
        let mut files: Vec<String> = Vec::new();
        let mut k: usize = 0;
        while k < sites.len()
            invariant
                k <= sites@.len(),
                views(sites@) == c.sites,
                views(files@) == anchor_files(c.sites.take(k as int)),
            decreases sites.len() - k,
        {
            proof {
                assert(c.sites.take(k + 1).drop_last() =~= c.sites.take(k as int));
                assert(c.sites.take(k + 1).last() == sites@[k as int]@);
            }
            match parse_anchor(sites[k].as_str()) {
                Ok(a) => {
                    proof {
                        assert(views(files@.push(a.file)) =~= views(files@) + seq![a.file@]);
                    }
                    files.push(a.file);
                },
                Err(_) => {
                    proof {
                        assert(views(files@) + Seq::<Seq<char>>::empty() =~= views(files@));
                    }
                },
            }
            k += 1;
        }
        proof {
            assert(c.sites.take(k as int) =~= c.sites);
        }
        let ghost fv = views(files@);
        let ghost old_matched = self.matched@;
        let ghost pats = views(self.patterns@);
        let mut glob_pass = self.patterns.len() == 0;
        let mut new_matched: Vec<bool> = Vec::new();
        let mut j: usize = 0;
        while j < self.patterns.len()
            invariant
                j <= self.patterns@.len() == old_matched.len(),
                self.wf(),
                self.matched@ == old_matched,
                pats == views(self.patterns@),
                fv == views(files@),
                new_matched@ == Seq::new(j as nat, |i: int| old_matched[i] || any_match(pats[i], fv)),
                glob_pass == (self.patterns@.len() == 0 || exists|i: int| 0 <= i < j && any_match(#[trigger] pats[i], fv)),
            decreases self.patterns.len() - j,
        {
            let mut hit = false;
            let mut f: usize = 0;
            while f < files.len() && !hit
                invariant
                    f <= files@.len(),
                    fv == views(files@),
                    j < self.patterns@.len(),
                    self.wf(),
                    hit == exists|i: int| 0 <= i < f && glob_match(pats[j as int], #[trigger] fv[i]),
                    pats == views(self.patterns@),
                decreases files.len() - f + (if hit { 0int } else { 1int }),
            {
                proof {
                    assert(pats[j as int] == self.patterns@[j as int]@);
                    assert(fv[f as int] == files@[f as int]@);
                }
                if glob_matches(self.patterns[j].as_str(), files[f].as_str()) {
                    hit = true;
                }
                f += 1;
            }
            proof {
                if !hit {
                    assert(!any_match(pats[j as int], fv));
                }
            }
            let now = self.matched[j] || hit;
            proof {
                assert(new_matched@.push(now) =~= Seq::new((j + 1) as nat, |i: int| old_matched[i] || any_match(pats[i], fv)));
            }
            new_matched.push(now);
            if hit {
                glob_pass = true;
            }
            j += 1;
        }
        self.matched = new_matched;
        if !glob_pass {
            return false;
        }
        match &self.changed {
            None => true,
            Some(ch) => {
                let mut found = false;
                let mut f: usize = 0;
                while f < files.len() && !found
                    invariant
                        f <= files@.len(),
                        fv == views(files@),
                        found == exists|i: int| 0 <= i < f && views(ch@).contains(#[trigger] fv[i]),
                    decreases files.len() - f + (if found { 0int } else { 1int }),
                {
                    let mut g: usize = 0;
                    let mut hit = false;
                    while g < ch.len() && !hit
                        invariant
                            g <= ch@.len(),
                            f < files@.len(),
                            hit == exists|i: int| 0 <= i < g && ch@[i]@ == files@[f as int]@,
                        decreases ch.len() - g + (if hit { 0int } else { 1int }),
                    {
                        if crate::text::str_eq(ch[g].as_str(), files[f].as_str()) {
                            hit = true;
                        }
                        g += 1;
                    }
                    proof {
                        assert(fv[f as int] == files@[f as int]@);
                        if hit {
                            let i = choose|i: int| 0 <= i < g && ch@[i]@ == files@[f as int]@;
                            assert(views(ch@)[i] == ch@[i]@);
                        } else {
                            assert forall|i: int| 0 <= i < views(ch@).len() implies views(ch@)[i] != fv[f as int] by {
                                assert(views(ch@)[i] == ch@[i]@);
                            }
                        }
                    }
                    if hit {
                        found = true;
                    }
                    f += 1;
                }
                found
            },
        }
    }

    /// The patterns that never matched an anchored file, in order.
    pub fn unmatched_globs(&self) -> (r: Vec<String>)
        requires
            self.wf(),
        ensures
            views(r@) == unmatched(self.patterns(), self.matched(), self.patterns().len() as int),
    {
        let mut r: Vec<String> = Vec::new();
        let mut j: usize = 0;
        while j < self.patterns.len()
            invariant
                j <= self.patterns@.len() == self.matched@.len(),
                views(r@) == unmatched(views(self.patterns@), self.matched@, j as int),
            decreases self.patterns.len() - j,
        {
            if !self.matched[j] {
                proof {
                    assert(views(r@.push(self.patterns@[j as int])) =~= views(r@).push(self.patterns@[j as int]@));
                }
                r.push(self.patterns[j].clone());
            }
            j += 1;
        }
        r
    }
}

/// The first `k` patterns whose flag is unset, in order.
pub open spec fn unmatched(patterns: Seq<Seq<char>>, matched: Seq<bool>, k: int) -> Seq<Seq<char>>
    decreases k,
{
    if k <= 0 {
        Seq::empty()
    } else if matched[k - 1] {
        unmatched(patterns, matched, k - 1)
    } else {
        unmatched(patterns, matched, k - 1).push(patterns[k - 1])
    }
}

/// A check passes when nothing diverged, unless `--files` patterns were given and every one
/// of them matched nothing: a mistyped scope must not pass for a clean run.
pub fn check_passes(divergences: usize, patterns: usize, unmatched_patterns: usize) -> (ok: bool)
    ensures
        ok == (divergences == 0 && !(patterns > 0 && unmatched_patterns == patterns)),
{
    divergences == 0 && !(patterns > 0 && unmatched_patterns == patterns)
}

/// A single-site claim whose site resolves is judged in its own fingerprint mode: it is clean
/// exactly when its stored fingerprint is the one `hash_anchor_with` gives the site with the
/// claim's `ignore_literals`, and changed, with that fingerprint as the new one, when it
/// stores another.
pub proof fn lemma_verdict_in_claim_mode(hub: Seq<char>, c: ClaimModel, src: Seq<char>, a: AnchorModel, lang: Lang, h: Seq<char>)
    requires
        c.sites.len() == 1,
        site_target_spec(c.sites[0]) == Ok::<(AnchorModel, Lang), Seq<char>>((a, lang)),
        spec_hash_anchor(src, lang, a, HashOpts { ignore_literals: c.ignore_literals }) == Ok::<Seq<char>, ResolveErrorModel>(h),
    ensures
        (claim_verdict(hub, c, seq![Some(src)]) is None) <==> c.hash == Some(h),
        c.hash is Some && c.hash != Some(h) ==> (claim_verdict(hub, c, seq![Some(src)]) matches Some(d) && d.kind
            == DivergenceKind::Changed && d.new_hash == Some(h) && d.old_hash == c.hash),
{
    let mode = HashOpts { ignore_literals: c.ignore_literals };
    crate::hash::lemma_hash_agrees_with_resolve(src, lang, a, mode);
    let reads = seq![Some(src)];
    let span = spec_resolve(src, lang, a)->Ok_0;
    assert(site_result(c.sites[0], reads[0], mode) == Ok::<(Seq<char>, Span), Seq<char>>((h, span)));
    let rs = seq![(h, span)];
    assert(site_results(c.sites, reads, mode, 0) == Ok::<Seq<(Seq<char>, Span)>, Seq<char>>(Seq::empty()));
    assert(Seq::<(Seq<char>, Span)>::empty().push((h, span)) =~= rs);
    assert(site_results(c.sites, reads, mode, 1) == Ok::<Seq<(Seq<char>, Span)>, Seq<char>>(rs));
    assert(rs.map_values(|x: (Seq<char>, Span)| x.0) =~= seq![h]);
}

} // verus!
