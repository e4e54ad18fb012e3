//! Anchor hygiene. Every anchor must resolve to exactly one symbol: an ambiguous or vanished
//! anchor blocks, while a symbol that was merely renamed (found again by its stored
//! fingerprint) only warns and points at `verify --follow`. Advisory warnings cover anchors
//! that span nearly a whole file, hubs with too many anchors, and public symbols of an
//! anchored file that no claim covers, workspace-wide.
//!
//! Reading files and asking version control are the caller's; this module decides.

use vstd::prelude::*;
use crate::anchor::{Anchor, AnchorModel, SegmentModel, parse_anchor, spec_parse_anchor, anchor_error_text};
use crate::lang::{Lang, spec_lang_of_path};
use crate::hash::HashOpts;
use crate::resolve::{Span, ResolveError, ResolveErrorModel, resolve, spec_resolve, resolve_error_text};
use crate::rename::{find_renamed, spec_find_renamed};
use crate::hub::{text_lines, text_lines_exec};
use crate::text::{find_seq, find_seq_from, lemma_find_seq, split_once_seq, split_seq, trim, decimal, push_decimal, push_decimal_wide, chars_of, views, join_text, join_strings};

verus! {

broadcast use vstd::std_specs::vec::group_vec_axioms, vstd::seq::group_seq_axioms;

/// Over this share of its file (in percent), an anchored span is "whole-file-ish".
pub const COARSE_SPAN_FRACTION_PCT: usize = 75;

/// Files shorter than this many lines are never called coarsely anchored.
pub const COARSE_MIN_FILE_LINES: usize = 15;

/// Past this many anchors, a hub invites rubber-stamping during a bulk verify.
pub const MAX_ANCHORS_PER_HUB: usize = 12;

/// How serious a finding is: a block fails the lint, a warning does not.
#[derive(Debug, Clone, Copy, PartialEq, Eq, Structural)]
pub enum Severity {
    Block,
    Warn,
}

/// One lint finding.
#[derive(Debug, Clone)]
pub struct Finding {
    pub severity: Severity,
    pub hub: String,
    pub at: String,
    pub message: String,
    pub claim: String,
}

/// A finding as text.
pub struct FindingModel {
    pub severity: Severity,
    pub hub: Seq<char>,
    pub at: Seq<char>,
    pub message: Seq<char>,
    pub claim: Seq<char>,
}

impl View for Finding {
    type V = FindingModel;

    open spec fn view(&self) -> FindingModel {
        FindingModel {
            severity: self.severity,
            hub: self.hub@,
            at: self.at@,
            message: self.message@,
            claim: self.claim@,
        }
    }
}

pub open spec fn findings_view(v: Seq<Finding>) -> Seq<FindingModel> {
    v.map_values(|f: Finding| f@)
}

pub open spec fn finding(severity: Severity, hub: Seq<char>, claim: Seq<char>, at: Seq<char>, message: Seq<char>) -> FindingModel {
    FindingModel { severity, hub, at, message, claim }
}

fn make_finding(severity: Severity, hub: &str, claim: &str, at: &str, message: String) -> (f: Finding)
    ensures
        f@ == finding(severity, hub@, claim@, at@, message@),
{
    Finding { severity, hub: hub.to_owned(), at: at.to_owned(), message, claim: claim.to_owned() }
}

/// The finding that stands for a hub that cannot be read: it blocks.
pub fn malformed_hub_finding(hub: &str, err: &crate::hub::HubError) -> (f: Finding)
    ensures
        f@ == finding(Severity::Block, hub@, Seq::empty(), Seq::empty(), "invalid hub: "@ + crate::hub::hub_error_text(*err)),
{
    let mut m = "invalid hub: ".to_owned();
    m.push_str(err.message().as_str());
    proof {
        reveal_strlit("");
        assert(""@ =~= Seq::<char>::empty());
    }
    make_finding(Severity::Block, hub, "", "", m)
}

/// How reading an anchored file went.
pub enum FileRead {
    /// The file's text.
    Text(String),
    /// The file is gone, but version control saw it renamed.
    Moved,
    /// The file cannot be read.
    Missing,
}

pub enum FileReadModel {
    Text(Seq<char>),
    Moved,
    Missing,
}

impl View for FileRead {
    type V = FileReadModel;

    open spec fn view(&self) -> FileReadModel {
        match self {
            FileRead::Text(s) => FileReadModel::Text(s@),
            FileRead::Moved => FileReadModel::Moved,
            FileRead::Missing => FileReadModel::Missing,
        }
    }
}

/// What linting one site learned: the file it names, the full segment path it anchors, and
/// whether it resolved cleanly.
pub struct SiteInfo {
    pub file: String,
    pub segments: Vec<String>,
    pub resolved: bool,
}

pub struct SiteInfoModel {
    pub file: Seq<char>,
    pub segments: Seq<Seq<char>>,
    pub resolved: bool,
}

impl View for SiteInfo {
    type V = SiteInfoModel;

    open spec fn view(&self) -> SiteInfoModel {
        SiteInfoModel { file: self.file@, segments: views(self.segments@), resolved: self.resolved }
    }
}

pub open spec fn segment_names(a: AnchorModel) -> Seq<Seq<char>> {
    a.segments.map_values(|s: SegmentModel| s.name)
}

/// The number of lines of a file as counted for coarseness: at least one.
pub open spec fn file_line_count(source: Seq<char>) -> nat {
    if text_lines(source).len() == 0 {
        1
    } else {
        text_lines(source).len()
    }
}

/// The lines a span covers.
pub open spec fn span_line_count(span: Span) -> nat {
    (if span.end_line >= span.start_line { span.end_line - span.start_line } else { 0int }) as nat + 1
}

/// The coarse-span warning for a resolved site, if its span covers at least
/// `COARSE_SPAN_FRACTION_PCT` percent of a file of at least `COARSE_MIN_FILE_LINES` lines.
pub open spec fn coarse_findings(hub: Seq<char>, claim: Seq<char>, site: Seq<char>, file: Seq<char>, source: Seq<char>, span: Span) -> Seq<FindingModel> {
    let sl = span_line_count(span);
    let fl = file_line_count(source);
    if fl >= COARSE_MIN_FILE_LINES && sl * 100 >= fl * COARSE_SPAN_FRACTION_PCT {
        seq![finding(Severity::Warn, hub, claim, site,
            "anchored span covers "@ + decimal(sl * 100 / fl) + "% of "@ + file + " ("@ + decimal(sl) + "/"@
                + decimal(fl) + " lines) \u{2014} a near-whole-file anchor re-triggers verification on any edit; point at a narrower symbol"@,
        )]
    } else {
        Seq::empty()
    }
}

/// The message for a site whose symbol is gone, given what the rename search found.
pub open spec fn not_found_message(segment: Seq<char>, stored: Option<Seq<char>>, search: Result<Option<Seq<char>>, ResolveErrorModel>) -> (Severity, Seq<char>) {
    match stored {
        None => (Severity::Block, "`"@ + segment + "` not found (claim has no stored hash to match against)"@),
        Some(_) => match search {
            Ok(Some(n)) => (Severity::Warn, "`"@ + segment + "` not found, but its code appears to live under `"@ + n
                + "` now \u{2014} run `surf verify --follow`"@),
            Ok(None) => (Severity::Block, "`"@ + segment
                + "` not found and no current symbol matches the stored hash \u{2014} the claim points at nothing"@),
            Err(e) => (Severity::Block, "`"@ + segment + "` not found; rename check failed: "@ + resolve_error_text(e)),
        },
    }
}

/// Linting one site of a claim: the findings it adds and what it learned.
pub open spec fn site_lint(
    hub: Seq<char>,
    claim: Seq<char>,
    site: Seq<char>,
    stored: Option<Seq<char>>,
    opts: HashOpts,
    read: FileReadModel,
) -> (Seq<FindingModel>, Option<SiteInfoModel>) {
    match spec_parse_anchor(site) {
        Err(e) => (seq![finding(Severity::Block, hub, claim, site, "invalid anchor: "@ + anchor_error_text(e))], None),
        Ok(a) => {
            let info = |r: bool| Some(SiteInfoModel { file: a.file, segments: segment_names(a), resolved: r });
            match spec_lang_of_path(a.file) {
                None => (seq![finding(Severity::Block, hub, claim, site, "unsupported file type: "@ + a.file)], info(false)),
                Some(lang) => match read {
                    FileReadModel::Moved => (
                        seq![finding(Severity::Warn, hub, claim, site, "`"@ + a.file
                            + "` appears to have moved \u{2014} run `surf verify --follow`"@)],
                        info(false),
                    ),
                    FileReadModel::Missing => (
                        seq![finding(Severity::Block, hub, claim, site, "cannot read `"@ + a.file + "` (file moved or removed?)"@)],
                        info(false),
                    ),
                    FileReadModel::Text(src) => match spec_resolve(src, lang, a) {
                        Ok(span) => (coarse_findings(hub, claim, site, a.file, src, span), info(true)),
                        Err(ResolveErrorModel::Parse) => (
                            seq![finding(Severity::Block, hub, claim, site, "could not parse `"@ + a.file + "`"@)],
                            info(false),
                        ),
                        Err(ResolveErrorModel::Ambiguous(seg, n)) => (
                            seq![finding(Severity::Block, hub, claim, site, "`"@ + seg + "` is ambiguous ("@ + decimal(n)
                                + " matches); disambiguate with `@N`"@)],
                            info(false),
                        ),
                        Err(ResolveErrorModel::NotFound(seg)) => {
                            let (sev, msg) = not_found_message(
                                seg,
                                stored,
                                match stored {
                                    Some(h) => spec_find_renamed(src, lang, h, opts),
                                    None => Ok(None),
                                },
                            );
                            (seq![finding(sev, hub, claim, site, msg)], info(false))
                        },
                    },
                },
            }
        },
    }
}

pub open spec fn opt_str_view(o: Option<&str>) -> Option<Seq<char>> {
    match o {
        Some(s) => Some(s@),
        None => None,
    }
}

fn names_of(a: &Anchor) -> (r: Vec<String>)
    ensures
        views(r@) == segment_names(a@),
{
    let mut r: Vec<String> = Vec::new();
    let mut k: usize = 0;
    while k < a.segments.len()
        invariant
            k <= a.segments@.len(),
            views(r@) == segment_names(a@).take(k as int),
        decreases a.segments.len() - k,
    {
        let n = a.segments[k].name.clone();
        proof {
            assert(views(r@.push(n)) =~= views(r@).push(n@));
            assert(segment_names(a@).take(k + 1) =~= segment_names(a@).take(k as int).push(segment_names(a@)[k as int]));
        }
        r.push(n);
        k += 1;
    }
    proof {
        assert(segment_names(a@).take(k as int) =~= segment_names(a@));
    }
    r
}

/// The coarse-span warning, appended to `findings` when due.
fn coarse_span(hub: &str, claim: &str, site: &str, file: &str, source: &str, span: Span, findings: &mut Vec<Finding>)
    ensures
        findings_view(final(findings)@) == findings_view(old(findings)@) + coarse_findings(hub@, claim@, site@, file@, source@, span),
{
    let chars = chars_of(source);
    let n = text_lines_exec(&chars).len();
    let file_lines: usize = if n == 0 { 1 } else { n };
    let span_lines: u128 = if span.end_line >= span.start_line { (span.end_line - span.start_line) as u128 + 1 } else { 1 };
    let fl = file_lines as u128;
    if file_lines >= COARSE_MIN_FILE_LINES && span_lines * 100 >= fl * 75 {
        let mut m = "anchored span covers ".to_owned();
        push_decimal_wide(&mut m, span_lines * 100 / fl);
        m.push_str("% of ");
        m.push_str(file);
        m.push_str(" (");
        push_decimal_wide(&mut m, span_lines);
        m.push_str("/");
        push_decimal(&mut m, file_lines);
        m.push_str(" lines) \u{2014} a near-whole-file anchor re-triggers verification on any edit; point at a narrower symbol");
        let f = make_finding(Severity::Warn, hub, claim, site, m);
        proof {
            assert(findings_view(findings@.push(f)) =~= findings_view(findings@).push(f@));
        }
        findings.push(f);
    } else {
        proof {
            assert(findings_view(findings@) + Seq::<FindingModel>::empty() =~= findings_view(findings@));
        }
    }
}

/// Lints one site of a claim: appends its findings and returns what it learned (`None` when
/// the site cannot even be attributed to a file).
pub fn lint_site(
    hub: &str,
    claim: &str,
    site: &str,
    stored_hash: Option<&str>,
    opts: HashOpts,
    read: &FileRead,
    findings: &mut Vec<Finding>,
) -> (r: Option<SiteInfo>)
    ensures
        ({
            let (fs, info) = site_lint(hub@, claim@, site@, opt_str_view(stored_hash), opts, read@);
            &&& findings_view(final(findings)@) == findings_view(old(findings)@) + fs
            &&& match r {
                Some(i) => info == Some(i@),
                None => info is None,
            }
        }),
{
    let ghost before = findings_view(findings@);
    let anchor = match parse_anchor(site) {
        Ok(a) => a,
        Err(e) => {
            let mut m = "invalid anchor: ".to_owned();
            m.push_str(e.message().as_str());
            let f = make_finding(Severity::Block, hub, claim, site, m);
            proof {
                assert(findings_view(findings@.push(f)) =~= findings_view(findings@).push(f@));
            }
            findings.push(f);
            return None;
        },
    };
    let file = anchor.file.as_str();
    let segments = names_of(&anchor);
    let lang = match Lang::from_path(file) {
        Some(l) => l,
        None => {
            let mut m = "unsupported file type: ".to_owned();
            m.push_str(file);
            let f = make_finding(Severity::Block, hub, claim, site, m);
            proof {
                assert(findings_view(findings@.push(f)) =~= findings_view(findings@).push(f@));
            }
            findings.push(f);
            return Some(SiteInfo { file: anchor.file.clone(), segments, resolved: false });
        },
    };
    let source = match read {
        FileRead::Moved => {
            let mut m = "`".to_owned();
            m.push_str(file);
            m.push_str("` appears to have moved \u{2014} run `surf verify --follow`");
            let f = make_finding(Severity::Warn, hub, claim, site, m);
            proof {
                assert(findings_view(findings@.push(f)) =~= findings_view(findings@).push(f@));
            }
            findings.push(f);
            return Some(SiteInfo { file: anchor.file.clone(), segments, resolved: false });
        },
        FileRead::Missing => {
            let mut m = "cannot read `".to_owned();
            m.push_str(file);
            m.push_str("` (file moved or removed?)");
            let f = make_finding(Severity::Block, hub, claim, site, m);
            proof {
                assert(findings_view(findings@.push(f)) =~= findings_view(findings@).push(f@));
            }
            findings.push(f);
            return Some(SiteInfo { file: anchor.file.clone(), segments, resolved: false });
        },
        FileRead::Text(s) => s,
    };
    match resolve(source.as_str(), lang, &anchor) {
        Ok(span) => {
            coarse_span(hub, claim, site, file, source.as_str(), span, findings);
            Some(SiteInfo { file: anchor.file.clone(), segments, resolved: true })
        },
        Err(e) => {
            let (sev, m) = match &e {
                ResolveError::Parse => {
                    let mut m = "could not parse `".to_owned();
                    m.push_str(file);
                    m.push_str("`");
                    (Severity::Block, m)
                },
                ResolveError::Ambiguous { segment, count } => {
                    let mut m = "`".to_owned();
                    m.push_str(segment.as_str());
                    m.push_str("` is ambiguous (");
                    push_decimal(&mut m, *count);
                    m.push_str(" matches); disambiguate with `@N`");
                    (Severity::Block, m)
                },
                ResolveError::NotFound { segment } => match stored_hash {
                    None => {
                        let mut m = "`".to_owned();
                        m.push_str(segment.as_str());
                        m.push_str("` not found (claim has no stored hash to match against)");
                        (Severity::Block, m)
                    },
                    Some(h) => match find_renamed(source.as_str(), lang, h, opts) {
                        Ok(Some(new_name)) => {
                            let mut m = "`".to_owned();
                            m.push_str(segment.as_str());
                            m.push_str("` not found, but its code appears to live under `");
                            m.push_str(new_name.as_str());
                            m.push_str("` now \u{2014} run `surf verify --follow`");
                            (Severity::Warn, m)
                        },
                        Ok(None) => {
                            let mut m = "`".to_owned();
                            m.push_str(segment.as_str());
                            m.push_str(
                                "` not found and no current symbol matches the stored hash \u{2014} the claim points at nothing",
                            );
                            (Severity::Block, m)
                        },
                        Err(err) => {
                            let mut m = "`".to_owned();
                            m.push_str(segment.as_str());
                            m.push_str("` not found; rename check failed: ");
                            m.push_str(err.message().as_str());
                            (Severity::Block, m)
                        },
                    },
                },
            };
            let f = make_finding(sev, hub, claim, site, m);
            proof {
                assert(findings_view(findings@.push(f)) =~= findings_view(findings@).push(f@));
            }
            findings.push(f);
            Some(SiteInfo { file: anchor.file.clone(), segments, resolved: false })
        },
    }
}

/// The warning for a hub with more than `MAX_ANCHORS_PER_HUB` anchors.
pub fn too_many_anchors(hub: &str, anchors: usize) -> (r: Option<Finding>)
    ensures
        match r {
            Some(f) => anchors > MAX_ANCHORS_PER_HUB && f@ == finding(Severity::Warn, hub@, Seq::empty(), Seq::empty(),
                decimal(anchors as nat) + " anchors in one hub (> 12) \u{2014} consider splitting; bulk verify of a long list invites rubber-stamping"@),
            None => anchors <= MAX_ANCHORS_PER_HUB,
        },
{
    if anchors > MAX_ANCHORS_PER_HUB {
        let mut m = String::new();
        push_decimal(&mut m, anchors);
        m.push_str(" anchors in one hub (> 12) \u{2014} consider splitting; bulk verify of a long list invites rubber-stamping");
        proof {
            reveal_strlit("");
            assert(Seq::<char>::empty() + decimal(anchors as nat) =~= decimal(anchors as nat));
            assert(""@ =~= Seq::<char>::empty());
        }
        let f = make_finding(Severity::Warn, hub, "", "", m);
        Some(f)
    } else {
        None
    }
}

/// `a == b` on segment paths.
fn path_eq(a: &Vec<String>, b: &Vec<String>) -> (r: bool)
    ensures
        r == (crate::order::path_view(a@) == crate::order::path_view(b@)),
{
    proof {
        crate::order::lemma_path_lt_total(crate::order::path_view(a@), crate::order::path_view(b@));
        crate::order::lemma_path_lt_irrefl(crate::order::path_view(a@));
    }
    !crate::order::path_less(a, b) && !crate::order::path_less(b, a)
}

/// The under-coverage warnings for the public symbols of `file`, in order, that `covered`
/// does not hold.
pub open spec fn uncovered_findings(hub: Seq<char>, file: Seq<char>, covered: Set<Seq<Seq<char>>>, syms: Seq<Seq<Seq<char>>>) -> Seq<FindingModel>
    decreases syms.len(),
{
    if syms.len() == 0 {
        Seq::empty()
    } else {
        let rest = uncovered_findings(hub, file, covered, syms.drop_last());
        let sym = syms.last();
        if covered.contains(sym) {
            rest
        } else {
            let path = join_text(sym, " > "@);
            rest.push(finding(Severity::Warn, hub, Seq::empty(), file + " > "@ + path,
                "public symbol `"@ + path + "` in "@ + file
                    + " has no claim in any hub \u{2014} add an anchor or accept it as intentionally undocumented"@))
        }
    }
}

/// Warns, under `hub`, for each public symbol of `file` (functions and methods, in sorted
/// order) whose segment path no claim in the workspace covers.
pub fn under_coverage(hub: &str, file: &str, covered: &Vec<Vec<String>>, source: &str, lang: Lang) -> (r: Vec<Finding>)
    ensures
        exists|syms: Seq<Seq<Seq<char>>>|
            crate::order::sorted_paths(syms) && syms.to_set() == crate::surface::symbol_surface(source@, lang, crate::surface::Surface::Callables)
                && findings_view(r@) == uncovered_findings(hub@, file@, crate::order::paths_view(covered@).to_set(), syms),
{
    let syms = crate::surface::public_symbols(source, lang, crate::surface::Surface::Callables);
    let ghost sv = crate::order::paths_view(syms@);
    let ghost cov = crate::order::paths_view(covered@).to_set();
    let mut out: Vec<Finding> = Vec::new();
    let mut k: usize = 0;
    while k < syms.len()
        invariant
            k <= syms@.len(),
            sv == crate::order::paths_view(syms@),
            cov == crate::order::paths_view(covered@).to_set(),
            findings_view(out@) == uncovered_findings(hub@, file@, cov, sv.take(k as int)),
        decreases syms.len() - k,
    {
        let sym = &syms[k];
        let mut hit = false;
        let mut c: usize = 0;
        while c < covered.len() && !hit
            invariant
                c <= covered@.len(),
                k < syms@.len(),
                *sym == syms@[k as int],
                hit ==> exists|i: int| 0 <= i < c && crate::order::path_view(covered@[i]@) == crate::order::path_view(syms@[k as int]@),
                !hit ==> forall|i: int| 0 <= i < c ==> crate::order::path_view(#[trigger] covered@[i]@) != crate::order::path_view(syms@[k as int]@),
            decreases covered.len() - c + (if hit { 0int } else { 1int }),
        {
            if path_eq(&covered[c], sym) {
                hit = true;
                proof {
                    assert(crate::order::path_view(covered@[c as int]@) == crate::order::path_view(syms@[k as int]@));
                }
            }
            c += 1;
        }
        proof {
            assert(sv.take(k + 1).drop_last() =~= sv.take(k as int));
            assert(sv.take(k + 1).last() == crate::order::path_view(sym@));
            let pv = crate::order::paths_view(covered@);
            if hit {
                let i = choose|i: int| 0 <= i < c && crate::order::path_view(covered@[i]@) == crate::order::path_view(syms@[k as int]@);
                assert(pv[i] == crate::order::path_view(covered@[i]@));
                assert(pv.contains(pv[i]));
            } else {
                assert forall|i: int| 0 <= i < pv.len() implies pv[i] != crate::order::path_view(sym@) by {
                    assert(pv[i] == crate::order::path_view(covered@[i]@));
                }
                assert(!pv.contains(crate::order::path_view(sym@)));
            }
        }
        if !hit {
            let path = join_strings(sym.as_slice(), " > ");
            let mut at = file.to_owned();
            at.push_str(" > ");
            at.push_str(path.as_str());
            let mut m = "public symbol `".to_owned();
            m.push_str(path.as_str());
            m.push_str("` in ");
            m.push_str(file);
            m.push_str(" has no claim in any hub \u{2014} add an anchor or accept it as intentionally undocumented");
            let f = Finding { severity: Severity::Warn, hub: hub.to_owned(), at, message: m, claim: String::new() };
            proof {
                assert(views(sym@) == crate::order::path_view(sym@));
                assert(findings_view(out@.push(f)) =~= findings_view(out@).push(f@));
            }
            out.push(f);
        }
        k += 1;
    }
    proof {
        assert(sv.take(k as int) =~= sv);
    }
    out
}

/// What one linted site contributes to the workspace's coverage.
pub struct CoverageRecord {
    pub file: String,
    pub hub: String,
    pub segments: Vec<String>,
    pub resolved: bool,
}

pub struct RecordModel {
    pub file: Seq<char>,
    pub hub: Seq<char>,
    pub segments: Seq<Seq<char>>,
    pub resolved: bool,
}

impl View for CoverageRecord {
    type V = RecordModel;

    open spec fn view(&self) -> RecordModel {
        RecordModel { file: self.file@, hub: self.hub@, segments: views(self.segments@), resolved: self.resolved }
    }
}

pub open spec fn records_view(v: Seq<CoverageRecord>) -> Seq<RecordModel> {
    v.map_values(|r: CoverageRecord| r@)
}

/// Some site anchors `f`.
pub open spec fn recorded(rs: Seq<RecordModel>, f: Seq<char>) -> bool {
    exists|i: int| 0 <= i < rs.len() && (#[trigger] rs[i]).file == f
}

/// Every site anchoring `f` resolved.
pub open spec fn healthy(rs: Seq<RecordModel>, f: Seq<char>) -> bool {
    forall|i: int| 0 <= i < rs.len() && (#[trigger] rs[i]).file == f ==> rs[i].resolved
}

/// `h` is the lexicographically first hub anchoring `f`.
pub open spec fn owner_of(rs: Seq<RecordModel>, f: Seq<char>, h: Seq<char>) -> bool {
    &&& exists|i: int| 0 <= i < rs.len() && (#[trigger] rs[i]).file == f && rs[i].hub == h
    &&& forall|i: int| 0 <= i < rs.len() && (#[trigger] rs[i]).file == f ==> !crate::order::text_lt(rs[i].hub, h)
}

/// The segment paths of `f` that some hub anchors and that resolved.
pub open spec fn covered_paths(rs: Seq<RecordModel>, f: Seq<char>) -> Set<Seq<Seq<char>>> {
    Set::new(|p: Seq<Seq<char>>| exists|i: int| 0 <= i < rs.len() && (#[trigger] rs[i]).file == f && rs[i].resolved && rs[i].segments == p)
}

/// What the nudge for `n` must hold: `n` names an anchored file whose sites all resolved,
/// attributed to the file's first hub, with the file's covered paths.
pub open spec fn nudge_ok(rs: Seq<RecordModel>, n: Nudge) -> bool {
    &&& recorded(rs, n.file@)
    &&& owner_of(rs, n.file@, n.hub@)
    &&& crate::order::paths_view(n.covered@).to_set() == covered_paths(rs, n.file@)
}

proof fn lemma_recorded_push(p: Seq<RecordModel>, r: RecordModel, f: Seq<char>)
    ensures
        recorded(p.push(r), f) <==> (recorded(p, f) || r.file == f),
{
    let q = p.push(r);
    if recorded(p, f) {
        let i = choose|i: int| 0 <= i < p.len() && (#[trigger] p[i]).file == f;
        assert(q[i] == p[i]);
    }
    if r.file == f {
        assert(q[p.len() as int] == r);
    }
    if recorded(q, f) {
        let i = choose|i: int| 0 <= i < q.len() && (#[trigger] q[i]).file == f;
        if i < p.len() {
            assert(q[i] == p[i]);
        }
    }
}

proof fn lemma_record_other(p: Seq<RecordModel>, r: RecordModel, f: Seq<char>, h: Seq<char>)
    requires
        f != r.file,
    ensures
        recorded(p.push(r), f) == recorded(p, f),
        healthy(p.push(r), f) == healthy(p, f),
        owner_of(p.push(r), f, h) == owner_of(p, f, h),
        covered_paths(p.push(r), f) == covered_paths(p, f),
{
    let q = p.push(r);
    lemma_recorded_push(p, r, f);
    assert forall|i: int| 0 <= i < p.len() implies #[trigger] q[i] == p[i] by {}
    assert(q[p.len() as int] == r);
    assert(healthy(q, f) == healthy(p, f)) by {
        if healthy(p, f) {
            assert forall|i: int| 0 <= i < q.len() && (#[trigger] q[i]).file == f implies q[i].resolved by {
                if i < p.len() {
                    assert(q[i] == p[i]);
                }
            }
        }
        if healthy(q, f) {
            assert forall|i: int| 0 <= i < p.len() && (#[trigger] p[i]).file == f implies p[i].resolved by {
                assert(q[i] == p[i]);
            }
        }
    }
    assert(owner_of(q, f, h) == owner_of(p, f, h)) by {
        if owner_of(p, f, h) {
            let i = choose|i: int| 0 <= i < p.len() && (#[trigger] p[i]).file == f && p[i].hub == h;
            assert(q[i] == p[i]);
            assert forall|i: int| 0 <= i < q.len() && (#[trigger] q[i]).file == f implies !crate::order::text_lt(q[i].hub, h) by {
                if i < p.len() {
                    assert(q[i] == p[i]);
                }
            }
        }
        if owner_of(q, f, h) {
            let i = choose|i: int| 0 <= i < q.len() && (#[trigger] q[i]).file == f && q[i].hub == h;
            assert(i < p.len());
            assert(q[i] == p[i]);
            assert forall|i: int| 0 <= i < p.len() && (#[trigger] p[i]).file == f implies !crate::order::text_lt(p[i].hub, h) by {
                assert(q[i] == p[i]);
            }
        }
    }
    assert(covered_paths(q, f) =~= covered_paths(p, f)) by {
        assert forall|x: Seq<Seq<char>>| covered_paths(q, f).contains(x) implies covered_paths(p, f).contains(x) by {
            let i = choose|i: int| 0 <= i < q.len() && (#[trigger] q[i]).file == f && q[i].resolved && q[i].segments == x;
            assert(i < p.len());
            assert(q[i] == p[i]);
        }
        assert forall|x: Seq<Seq<char>>| covered_paths(p, f).contains(x) implies covered_paths(q, f).contains(x) by {
            let i = choose|i: int| 0 <= i < p.len() && (#[trigger] p[i]).file == f && p[i].resolved && p[i].segments == x;
            assert(q[i] == p[i]);
        }
    }
}

proof fn lemma_record_step(
    p: Seq<RecordModel>,
    r: RecordModel,
    old_h: Seq<char>,
    new_h: Seq<char>,
    old_cov: Set<Seq<Seq<char>>>,
    new_cov: Set<Seq<Seq<char>>>,
)
    requires
        owner_of(p, r.file, old_h),
        new_h == (if crate::order::text_lt(r.hub, old_h) { r.hub } else { old_h }),
        old_cov == covered_paths(p, r.file),
        new_cov == (if r.resolved { old_cov.insert(r.segments) } else { old_cov }),
    ensures
        recorded(p.push(r), r.file),
        healthy(p.push(r), r.file) == (healthy(p, r.file) && r.resolved),
        owner_of(p.push(r), r.file, new_h),
        covered_paths(p.push(r), r.file) == new_cov,
{
    let q = p.push(r);
    let f = r.file;
    let n = p.len() as int;
    assert(q[n] == r);
    assert forall|i: int| 0 <= i < p.len() implies #[trigger] q[i] == p[i] by {}
    lemma_recorded_push(p, r, f);
    assert(healthy(q, f) == (healthy(p, f) && r.resolved)) by {
        if healthy(p, f) && r.resolved {
            assert forall|i: int| 0 <= i < q.len() && (#[trigger] q[i]).file == f implies q[i].resolved by {
                if i < p.len() {
                    assert(q[i] == p[i]);
                }
            }
        }
        if healthy(q, f) {
            assert forall|i: int| 0 <= i < p.len() && (#[trigger] p[i]).file == f implies p[i].resolved by {
                assert(q[i] == p[i]);
            }
        }
    }
    let oi = choose|i: int| 0 <= i < p.len() && (#[trigger] p[i]).file == f && p[i].hub == old_h;
    assert(q[oi] == p[oi]);
    crate::order::lemma_text_lt_irrefl(r.hub);
    assert forall|i: int| 0 <= i < q.len() && (#[trigger] q[i]).file == f implies !crate::order::text_lt(q[i].hub, new_h) by {
        if i < p.len() {
            assert(q[i] == p[i]);
            assert(!crate::order::text_lt(p[i].hub, old_h));
            if crate::order::text_lt(r.hub, old_h) && crate::order::text_lt(q[i].hub, r.hub) {
                crate::order::lemma_text_lt_trans(q[i].hub, r.hub, old_h);
            }
        } else {
            if !crate::order::text_lt(r.hub, old_h) {
            }
        }
    }
    assert(covered_paths(q, f) =~= new_cov) by {
        assert forall|x: Seq<Seq<char>>| covered_paths(q, f).contains(x) implies new_cov.contains(x) by {
            let i = choose|i: int| 0 <= i < q.len() && (#[trigger] q[i]).file == f && q[i].resolved && q[i].segments == x;
            if i < p.len() {
                assert(q[i] == p[i]);
                assert(old_cov.contains(x));
            }
        }
        assert forall|x: Seq<Seq<char>>| new_cov.contains(x) implies covered_paths(q, f).contains(x) by {
            if old_cov.contains(x) {
                let i = choose|i: int| 0 <= i < p.len() && (#[trigger] p[i]).file == f && p[i].resolved && p[i].segments == x;
                assert(q[i] == p[i]);
            } else {
                assert(q[n].segments == x);
            }
        }
    }
}

proof fn lemma_record_new(p: Seq<RecordModel>, r: RecordModel)
    requires
        !recorded(p, r.file),
    ensures
        recorded(p.push(r), r.file),
        healthy(p.push(r), r.file) == r.resolved,
        owner_of(p.push(r), r.file, r.hub),
        covered_paths(p.push(r), r.file) == (if r.resolved { set![r.segments] } else { Set::<Seq<Seq<char>>>::empty() }),
{
    let q = p.push(r);
    let f = r.file;
    let n = p.len() as int;
    assert(q[n] == r);
    lemma_recorded_push(p, r, f);
    crate::order::lemma_text_lt_irrefl(r.hub);
    assert forall|i: int| 0 <= i < q.len() && (#[trigger] q[i]).file == f implies i == n by {
        if i < n {
            assert(q[i] == p[i]);
        }
    }
    assert(covered_paths(q, f) =~= (if r.resolved { set![r.segments] } else { Set::<Seq<Seq<char>>>::empty() }));
}

fn clone_strings(v: &Vec<String>) -> (r: Vec<String>)
    ensures
        views(r@) == views(v@),
{
    let mut r: Vec<String> = Vec::new();
    let mut k: usize = 0;
    while k < v.len()
        invariant
            k <= v@.len(),
            views(r@) == views(v@).take(k as int),
        decreases v.len() - k,
    {
        let x = v[k].clone();
        proof {
            assert(views(r@.push(x)) =~= views(r@).push(x@));
            assert(views(v@).take(k + 1) =~= views(v@).take(k as int).push(v@[k as int]@));
        }
        r.push(x);
        k += 1;
    }
    proof {
        assert(views(v@).take(k as int) =~= views(v@));
    }
    r
}

/// Coverage of the workspace, accumulated site by site across every hub: a public symbol
/// anchored by any hub is covered, whichever hub's file nudge reports the rest.
pub struct Coverage {
    pub records: Vec<CoverageRecord>,
}

/// An anchored file whose sites all resolved: the hub its nudge is attributed to (the
/// lexicographically first hub anchoring it) and the segment paths anchored in it.
pub struct Nudge {
    pub file: String,
    pub hub: String,
    pub covered: Vec<Vec<String>>,
}

/// Inserts `x` into a list sorted by file name, keeping it sorted.
fn insert_by_file(out: &mut Vec<Nudge>, x: Nudge)
    requires
        forall|a: int, b: int| 0 <= a < b < old(out)@.len() ==> crate::order::text_lt(#[trigger] old(out)@[a].file@, #[trigger] old(out)@[b].file@),
        forall|a: int| 0 <= a < old(out)@.len() ==> (#[trigger] old(out)@[a]).file@ != x.file@,
    ensures
        forall|a: int, b: int| 0 <= a < b < final(out)@.len() ==> crate::order::text_lt(#[trigger] final(out)@[a].file@, #[trigger] final(out)@[b].file@),
        exists|pos: int| 0 <= pos <= old(out)@.len() && final(out)@ == old(out)@.insert(pos, x),
{
    let mut pos: usize = 0;
    while pos < out.len() && crate::order::text_less(&out[pos].file, &x.file)
        invariant
            pos <= out@.len(),
            forall|a: int| 0 <= a < pos ==> crate::order::text_lt(#[trigger] out@[a].file@, x.file@),
        decreases out.len() - pos,
    {
        pos += 1;
    }
    proof {
        if pos < out@.len() {
            crate::order::lemma_text_lt_total(out@[pos as int].file@, x.file@);
            assert forall|b: int| pos <= b < out@.len() implies crate::order::text_lt(x.file@, #[trigger] out@[b].file@) by {
                if b > pos {
                    crate::order::lemma_text_lt_trans(x.file@, out@[pos as int].file@, out@[b].file@);
                }
            }
        }
    }
    let ghost o = out@;
    out.insert(pos, x);
    proof {
        let fin = out@;
        assert(fin == o.insert(pos as int, x));
        assert forall|a: int, b: int| 0 <= a < b < fin.len() implies crate::order::text_lt(#[trigger] fin[a].file@, #[trigger] fin[b].file@) by {
            if a < pos && b < pos {
            } else if a < pos && b == pos {
            } else if a < pos && b > pos {
                assert(fin[b] == o[b - 1]);
                crate::order::lemma_text_lt_trans(fin[a].file@, x.file@, fin[b].file@);
            } else if a == pos {
                assert(fin[b] == o[b - 1]);
            } else {
                assert(fin[a] == o[a - 1]);
                assert(fin[b] == o[b - 1]);
            }
        }
    }
}

impl Coverage {
    pub fn new() -> (c: Coverage)
        ensures
            c.records@.len() == 0,
    {
        Coverage { records: Vec::new() }
    }

    /// Adds what a site of `hub` taught.
    pub fn record(&mut self, hub: &str, info: &SiteInfo)
        ensures
            records_view(final(self).records@) == records_view(old(self).records@).push(
                RecordModel { file: info@.file, hub: hub@, segments: info@.segments, resolved: info@.resolved },
            ),
    {
        let r = CoverageRecord { file: info.file.clone(), hub: hub.to_owned(), segments: clone_strings(&info.segments), resolved: info.resolved };
        proof {
            assert(records_view(self.records@.push(r)) =~= records_view(self.records@).push(r@));
        }
        self.records.push(r);
    }

    /// The anchored files whose sites all resolved, sorted by name, each with its owning hub
    /// and its covered paths.
    pub fn nudges(&self) -> (r: Vec<Nudge>)
        ensures
            forall|i: int, j: int| 0 <= i < j < r@.len() ==> crate::order::text_lt(#[trigger] r@[i].file@, #[trigger] r@[j].file@),
            forall|k: int| 0 <= k < r@.len() ==> nudge_ok(records_view(self.records@), #[trigger] r@[k])
                && healthy(records_view(self.records@), r@[k].file@),
            forall|f: Seq<char>| recorded(records_view(self.records@), f) && healthy(records_view(self.records@), f) ==> exists|k: int|
                0 <= k < r@.len() && (#[trigger] r@[k]).file@ == f,
    {
        let ghost rs = records_view(self.records@);
        let mut entries: Vec<Nudge> = Vec::new();
        let mut ok: Vec<bool> = Vec::new();
        let mut i: usize = 0;
        while i < self.records.len()
            invariant
                i <= self.records@.len(),
                rs == records_view(self.records@),
                ok@.len() == entries@.len(),
                forall|a: int, b: int| 0 <= a < b < entries@.len() ==> (#[trigger] entries@[a]).file@ != (#[trigger] entries@[b]).file@,
                forall|k: int| 0 <= k < entries@.len() ==> nudge_ok(rs.take(i as int), #[trigger] entries@[k])
                    && ok@[k] == healthy(rs.take(i as int), entries@[k].file@),
                forall|f: Seq<char>| recorded(rs.take(i as int), f) ==> exists|k: int| 0 <= k < entries@.len() && (#[trigger] entries@[k]).file@ == f,
            decreases self.records.len() - i,
        {
            let rec = &self.records[i];
            let ghost p = rs.take(i as int);
            let ghost q = rs.take(i + 1);
            let ghost r = rs[i as int];
            proof {
                assert(q =~= p.push(r));
                assert(r == rec@);
            }
            let mut found: Option<usize> = None;
            let mut k: usize = 0;
            while k < entries.len() && found.is_none()
                invariant
                    k <= entries@.len(),
                    found matches Some(x) ==> x < entries@.len() && entries@[x as int].file@ == rec.file@,
                    found is None ==> forall|m: int| 0 <= m < k ==> (#[trigger] entries@[m]).file@ != rec.file@,
                decreases entries.len() - k + (if found is None { 1int } else { 0int }),
            {
                if crate::text::str_eq(entries[k].file.as_str(), rec.file.as_str()) {
                    found = Some(k);
                }
                k += 1;
            }
            match found {
                Some(x) => {
                    let ghost before = entries@;
                    let ghost e_old = entries@[x as int];
                    let mut e = entries.remove(x);
                    if crate::order::text_less(&rec.hub, &e.hub) {
                        e.hub = rec.hub.clone();
                    }
                    if rec.resolved {
                        let segs = clone_strings(&rec.segments);
                        proof {
                            assert(crate::order::paths_view(e.covered@.push(segs)) =~= crate::order::paths_view(e.covered@).push(r.segments));
                            crate::order::paths_view(e.covered@).lemma_push_to_set_commute(r.segments);
                        }
                        e.covered.push(segs);
                    }
                    let h = ok[x] && rec.resolved;
                    proof {
                        lemma_record_step(p, r, e_old.hub@, e.hub@, crate::order::paths_view(e_old.covered@).to_set(), crate::order::paths_view(e.covered@).to_set());
                    }
                    entries.insert(x, e);
                    ok.set(x, h);
                    proof {
                        assert(entries@ == before.update(x as int, e));
                        assert forall|k2: int| 0 <= k2 < entries@.len() implies nudge_ok(q, #[trigger] entries@[k2])
                            && ok@[k2] == healthy(q, entries@[k2].file@) by {
                            if k2 != x {
                                lemma_record_other(p, r, entries@[k2].file@, entries@[k2].hub@);
                            }
                        }
                        assert forall|f: Seq<char>| recorded(q, f) implies exists|k2: int| 0 <= k2 < entries@.len() && (#[trigger] entries@[k2]).file@ == f by {
                            lemma_recorded_push(p, r, f);
                            if f == r.file {
                                assert(entries@[x as int].file@ == f);
                            } else {
                                let k3 = choose|k3: int| 0 <= k3 < before.len() && (#[trigger] before[k3]).file@ == f;
                                assert(entries@[k3].file@ == f);
                            }
                        }
                    }
                },
                None => {
                    let mut cov: Vec<Vec<String>> = Vec::new();
                    if rec.resolved {
                        cov.push(clone_strings(&rec.segments));
                    }
                    let e = Nudge { file: rec.file.clone(), hub: rec.hub.clone(), covered: cov };
                    proof {
                        assert forall|f: Seq<char>| recorded(p, f) implies f != r.file by {
                            let k3 = choose|k3: int| 0 <= k3 < entries@.len() && (#[trigger] entries@[k3]).file@ == f;
                        }
                        lemma_record_new(p, r);
                        if r.resolved {
                            let sq = crate::order::paths_view(cov@);
                            assert(sq =~= seq![r.segments]);
                            assert(sq[0] == r.segments);
                            assert(sq.contains(r.segments));
                            assert forall|y: Seq<Seq<char>>| sq.contains(y) implies y == r.segments by {
                                let i = choose|i: int| 0 <= i < sq.len() && sq[i] == y;
                            }
                            assert(sq.to_set() =~= set![r.segments]);
                        } else {
                            assert(crate::order::paths_view(cov@).to_set() =~= Set::<Seq<Seq<char>>>::empty());
                        }
                    }
                    let ghost before = entries@;
                    entries.push(e);
                    ok.push(rec.resolved);
                    proof {
                        let n = before.len() as int;
                        assert forall|k2: int| 0 <= k2 < entries@.len() implies nudge_ok(q, #[trigger] entries@[k2])
                            && ok@[k2] == healthy(q, entries@[k2].file@) by {
                            if k2 < n {
                                assert(entries@[k2] == before[k2]);
                                lemma_record_other(p, r, entries@[k2].file@, entries@[k2].hub@);
                            }
                        }
                        assert forall|f: Seq<char>| recorded(q, f) implies exists|k2: int| 0 <= k2 < entries@.len() && (#[trigger] entries@[k2]).file@ == f by {
                            lemma_recorded_push(p, r, f);
                            if f == r.file {
                                assert(entries@[n].file@ == f);
                            } else {
                                let k3 = choose|k3: int| 0 <= k3 < before.len() && (#[trigger] before[k3]).file@ == f;
                                assert(entries@[k3] == before[k3]);
                            }
                        }
                    }
                },
            }
            i += 1;
        }
        proof {
            assert(rs.take(i as int) =~= rs);
        }
        let mut out: Vec<Nudge> = Vec::new();
        while entries.len() > 0
            invariant
                ok@.len() == entries@.len(),
                forall|a: int, b: int| 0 <= a < b < entries@.len() ==> (#[trigger] entries@[a]).file@ != (#[trigger] entries@[b]).file@,
                forall|k: int| 0 <= k < entries@.len() ==> nudge_ok(rs, #[trigger] entries@[k]) && ok@[k] == healthy(rs, entries@[k].file@),
                forall|a: int, b: int| 0 <= a < entries@.len() && 0 <= b < out@.len() ==> (#[trigger] entries@[a]).file@ != (#[trigger] out@[b]).file@,
                forall|a: int, b: int| 0 <= a < b < out@.len() ==> crate::order::text_lt(#[trigger] out@[a].file@, #[trigger] out@[b].file@),
                forall|k: int| 0 <= k < out@.len() ==> nudge_ok(rs, #[trigger] out@[k]) && healthy(rs, out@[k].file@),
                forall|f: Seq<char>| recorded(rs, f) && healthy(rs, f) ==> (exists|k: int| 0 <= k < entries@.len() && (#[trigger] entries@[k]).file@ == f)
                    || (exists|k: int| 0 <= k < out@.len() && (#[trigger] out@[k]).file@ == f),
            decreases entries@.len(),
        {
            let ghost es = entries@;
            let ghost os = out@;
            let e = entries.pop().unwrap();
            let h = ok.pop().unwrap();
            proof {
                assert(e == es.last());
                assert forall|a: int| 0 <= a < entries@.len() implies #[trigger] entries@[a] == es[a] by {}
            }
            if h {
                insert_by_file(&mut out, e);
                proof {
                    let pos = choose|pos: int| 0 <= pos <= os.len() && out@ == os.insert(pos, e);
                    assert forall|k: int| 0 <= k < out@.len() implies nudge_ok(rs, #[trigger] out@[k]) && healthy(rs, out@[k].file@) by {
                        if k < pos {
                            assert(out@[k] == os[k]);
                        } else if k > pos {
                            assert(out@[k] == os[k - 1]);
                        }
                    }
                    assert forall|a: int, b: int| 0 <= a < entries@.len() && 0 <= b < out@.len() implies (#[trigger] entries@[a]).file@ != (#[trigger] out@[b]).file@ by {
                        assert(entries@[a] == es[a]);
                        if b < pos {
                            assert(out@[b] == os[b]);
                        } else if b > pos {
                            assert(out@[b] == os[b - 1]);
                        } else {
                            assert(es[a].file@ != es[es.len() - 1].file@);
                        }
                    }
                    assert forall|f: Seq<char>| recorded(rs, f) && healthy(rs, f) implies (exists|k: int| 0 <= k < entries@.len() && (#[trigger] entries@[k]).file@ == f)
                        || (exists|k: int| 0 <= k < out@.len() && (#[trigger] out@[k]).file@ == f) by {
                        if exists|k: int| 0 <= k < es.len() && (#[trigger] es[k]).file@ == f {
                            let k = choose|k: int| 0 <= k < es.len() && (#[trigger] es[k]).file@ == f;
                            if k < es.len() - 1 {
                                assert(entries@[k] == es[k]);
                            } else {
                                assert(out@[pos] == e);
                            }
                        } else {
                            let k = choose|k: int| 0 <= k < os.len() && (#[trigger] os[k]).file@ == f;
                            if k < pos {
                                assert(out@[k] == os[k]);
                            } else {
                                assert(out@[k + 1] == os[k]);
                            }
                        }
                    }
                }
            } else {
                proof {
                    assert forall|f: Seq<char>| recorded(rs, f) && healthy(rs, f) implies (exists|k: int| 0 <= k < entries@.len() && (#[trigger] entries@[k]).file@ == f)
                        || (exists|k: int| 0 <= k < out@.len() && (#[trigger] out@[k]).file@ == f) by {
                        if exists|k: int| 0 <= k < es.len() && (#[trigger] es[k]).file@ == f {
                            let k = choose|k: int| 0 <= k < es.len() && (#[trigger] es[k]).file@ == f;
                            if k < es.len() - 1 {
                                assert(entries@[k] == es[k]);
                            } else {
                                assert(!ok@.push(h).last());
                            }
                        }
                    }
                }
            }
        }
        out
    }
}

/// The opening marker of the hubs pointer block in `AGENTS.md`.
pub const AGENTS_OPEN: &'static str = "<!-- surf:hubs -->";

/// The closing marker of the hubs pointer block in `AGENTS.md`.
pub const AGENTS_CLOSE: &'static str = "<!-- /surf:hubs -->";

/// The text between the first opening marker and the first closing marker after it.
pub open spec fn agents_block(text: Seq<char>) -> Option<Seq<char>> {
    match split_once_seq(text, AGENTS_OPEN@) {
        None => None,
        Some((_, rest)) => match split_once_seq(rest, AGENTS_CLOSE@) {
            None => None,
            Some((b, _)) => Some(b),
        },
    }
}

/// The link target a piece after `](` holds: what precedes its first `)`, trimmed.
pub open spec fn piece_target(piece: Seq<char>) -> Seq<Seq<char>> {
    match split_once_seq(piece, ")"@) {
        Some((t, _)) => seq![trim(t)],
        None => Seq::empty(),
    }
}

/// The link targets of the given pieces, in order.
pub open spec fn targets_of(pieces: Seq<Seq<char>>) -> Seq<Seq<char>>
    decreases pieces.len(),
{
    if pieces.len() == 0 {
        Seq::empty()
    } else {
        targets_of(pieces.drop_last()) + piece_target(pieces.last())
    }
}

/// All but the first element.
pub open spec fn after_first<A>(s: Seq<A>) -> Seq<A> {
    if s.len() == 0 {
        s
    } else {
        s.drop_first()
    }
}

/// The markdown link targets (`](target)`) in a text, in order: the pieces after each `](`,
/// each up to its first `)`.
pub open spec fn link_targets(text: Seq<char>) -> Seq<Seq<char>> {
    targets_of(after_first(split_seq(text, "]("@)))
}

/// `trim_start_matches("./")`.
pub open spec fn strip_dot_slash(t: Seq<char>) -> Seq<char>
    decreases t.len(),
{
    if t.len() >= 2 && t[0] == '.' && t[1] == '/' {
        strip_dot_slash(t.skip(2))
    } else {
        t
    }
}

/// `trim_end_matches('/')`.
pub open spec fn strip_trailing_slashes(t: Seq<char>) -> Seq<char>
    decreases t.len(),
{
    if t.len() > 0 && t.last() == '/' {
        strip_trailing_slashes(t.drop_last())
    } else {
        t
    }
}

/// A link target that names the directory `want`.
pub open spec fn names_dir(t: Seq<char>, want: Seq<char>) -> bool {
    strip_trailing_slashes(strip_dot_slash(t)) == want
}

/// Some target names `want`.
pub open spec fn any_names_dir(ts: Seq<Seq<char>>, want: Seq<char>) -> bool {
    exists|i: int| 0 <= i < ts.len() && names_dir(#[trigger] ts[i], want)
}

/// When `AGENTS.md` carries a hubs pointer block, the block must link the hubs directory and
/// the directory must exist; otherwise this blocking finding is due.
pub open spec fn agents_finding_spec(text: Seq<char>, hub_dir: Seq<char>, dir_exists: bool) -> Option<FindingModel> {
    match agents_block(text) {
        None => None,
        Some(b) => {
            let want = strip_trailing_slashes(hub_dir);
            if any_names_dir(link_targets(b), want) && dir_exists {
                None
            } else {
                Some(finding(Severity::Block, "AGENTS.md"@, Seq::empty(), Seq::empty(),
                    "`surf:hubs` block must link the hubs directory `"@ + want
                        + "/` and it must exist \u{2014} agents read it to find context"@))
            }
        },
    }
}

proof fn lemma_any_names_dir_concat(a: Seq<Seq<char>>, b: Seq<Seq<char>>, want: Seq<char>)
    ensures
        any_names_dir(a + b, want) == (any_names_dir(a, want) || any_names_dir(b, want)),
{
    let c = a + b;
    if any_names_dir(c, want) {
        let i = choose|i: int| 0 <= i < c.len() && names_dir(#[trigger] c[i], want);
        if i < a.len() {
            assert(c[i] == a[i]);
        } else {
            assert(c[i] == b[i - a.len()]);
        }
    }
    if any_names_dir(a, want) {
        let i = choose|i: int| 0 <= i < a.len() && names_dir(#[trigger] a[i], want);
        assert(c[i] == a[i]);
    }
    if any_names_dir(b, want) {
        let i = choose|i: int| 0 <= i < b.len() && names_dir(#[trigger] b[i], want);
        assert(c[i + a.len()] == b[i]);
    }
}

fn strip_dot_slash_range(v: &Vec<char>, lo: usize, hi: usize) -> (r: usize)
    requires
        lo <= hi <= v.len(),
    ensures
        lo <= r <= hi,
        v@.subrange(r as int, hi as int) == strip_dot_slash(v@.subrange(lo as int, hi as int)),
{
    let mut a = lo;
    while hi - a >= 2 && v[a] == '.' && v[a + 1] == '/'
        invariant
            lo <= a <= hi <= v.len(),
            strip_dot_slash(v@.subrange(lo as int, hi as int)) == strip_dot_slash(v@.subrange(a as int, hi as int)),
        decreases hi - a,
    {
        proof {
            assert(v@.subrange(a as int, hi as int).skip(2) =~= v@.subrange(a + 2, hi as int));
        }
        a += 2;
    }
    a
}

fn strip_slashes_range(v: &Vec<char>, lo: usize, hi: usize) -> (r: usize)
    requires
        lo <= hi <= v.len(),
    ensures
        lo <= r <= hi,
        v@.subrange(lo as int, r as int) == strip_trailing_slashes(v@.subrange(lo as int, hi as int)),
{
    let mut b = hi;
    while b > lo && v[b - 1] == '/'
        invariant
            lo <= b <= hi <= v.len(),
            strip_trailing_slashes(v@.subrange(lo as int, hi as int)) == strip_trailing_slashes(v@.subrange(lo as int, b as int)),
        decreases b,
    {
        proof {
            assert(v@.subrange(lo as int, b as int).drop_last() =~= v@.subrange(lo as int, b - 1));
        }
        b -= 1;
    }
    b
}

/// Whether the piece `b[lo..hi]` holds a link target naming `want`.
fn piece_names_dir(b: &Vec<char>, lo: usize, hi: usize, want: &Vec<char>) -> (r: bool)
    requires
        lo <= hi <= b.len(),
    ensures
        r == any_names_dir(piece_target(b@.subrange(lo as int, hi as int)), want@),
{
    let ghost piece = b@.subrange(lo as int, hi as int);
    proof {
        reveal_strlit(")");
        lemma_find_seq(piece, ")"@);
        crate::text::lemma_find_char_found(piece, ')');
    }
    match crate::text::find_in(b, lo, hi, ')') {
        None => {
            proof {
                match find_seq(piece, ")"@) {
                    Some(k) => {
                        assert(piece.subrange(k, k + 1) == ")"@);
                        assert(piece[k] == piece.subrange(k, k + 1)[0]);
                    },
                    None => {},
                }
                assert(piece_target(piece) =~= Seq::<Seq<char>>::empty());
            }
            false
        },
        Some(q) => {
            let ghost k = q - lo;
            proof {
                assert(piece[k] == ')');
                assert(piece.subrange(k, k + 1) =~= ")"@);
                match find_seq(piece, ")"@) {
                    Some(k2) => {
                        if k2 < k {
                            assert(piece.subrange(k2, k2 + 1) == ")"@);
                            assert(piece[k2] == piece.subrange(k2, k2 + 1)[0]);
                        }
                        if k2 > k {
                            assert(piece.subrange(k, k + 1) != ")"@);
                        }
                    },
                    None => {
                        assert(piece.subrange(k, k + 1) != ")"@);
                    },
                }
                assert(piece.take(k) =~= b@.subrange(lo as int, q as int));
            }
            let (x, y) = crate::text::trim_range(b, lo, q);
            let x2 = strip_dot_slash_range(b, x, y);
            let y2 = strip_slashes_range(b, x2, y);
            let eq = crate::text::ranges_equal(b, x2, y2, want, 0, want.len());
            proof {
                assert(want@.subrange(0, want@.len() as int) =~= want@);
                let t = trim(b@.subrange(lo as int, q as int));
                assert(piece_target(piece) =~= seq![t]);
                assert(names_dir(t, want@) == eq);
                if eq {
                    assert(names_dir(piece_target(piece)[0], want@));
                }
            }
            eq
        },
    }
}

/// The finding due for `AGENTS.md`'s hubs pointer block (see `agents_finding_spec`), given
/// its text, the configured hubs directory and whether that directory exists.
pub fn agents_pointer(text: &str, hub_dir: &str, dir_exists: bool) -> (r: Option<Finding>)
    ensures
        match r {
            Some(f) => agents_finding_spec(text@, hub_dir@, dir_exists) == Some(f@),
            None => agents_finding_spec(text@, hub_dir@, dir_exists) is None,
        },
{
    let v = chars_of(text);
    let open = chars_of(AGENTS_OPEN);
    let close = chars_of(AGENTS_CLOSE);
    proof {
        assert(v@.skip(0) =~= text@);
        lemma_find_seq(text@, AGENTS_OPEN@);
    }
    let o = match find_seq_from(&v, 0, &open) {
        Some(o) => o,
        None => return None,
    };
    proof {
        assert(o + open@.len() <= v@.len());
        assert(v@.len() == v.len());
    }
    let ol = open.len();
    assert(o + ol <= v.len());
    let start = o + ol;
    proof {
        assert(text@.skip(o + AGENTS_OPEN@.len()) =~= v@.skip(start as int));
    }
    let c = match find_seq_from(&v, start, &close) {
        Some(c) => c,
        None => return None,
    };
    proof {
        lemma_find_seq(v@.skip(start as int), AGENTS_CLOSE@);
        assert(v@.skip(start as int).take(c - start) =~= v@.subrange(start as int, c as int));
    }
    let mut b: Vec<char> = Vec::new();
    let mut i = start;
    while i < c
        invariant
            start <= i <= c <= v@.len(),
            b@ == v@.subrange(start as int, i as int),
        decreases c - i,
    {
        b.push(v[i]);
        proof {
            assert(v@.subrange(start as int, i + 1) =~= v@.subrange(start as int, i as int).push(v@[i as int]));
        }
        i += 1;
    }
    let ghost block = b@;
    assert(agents_block(text@) == Some(block));
    let hd = chars_of(hub_dir);
    let want_end = strip_slashes_range(&hd, 0, hd.len());
    proof {
        assert(hd@.subrange(0, hd@.len() as int) =~= hub_dir@);
    }
    let mut want: Vec<char> = Vec::new();
    let mut k: usize = 0;
    while k < want_end
        invariant
            k <= want_end <= hd@.len(),
            want@ == hd@.subrange(0, k as int),
        decreases want_end - k,
    {
        want.push(hd[k]);
        proof {
            assert(hd@.subrange(0, k + 1) =~= hd@.subrange(0, k as int).push(hd@[k as int]));
        }
        k += 1;
    }
    let sep = chars_of("](");
    proof {
        reveal_strlit("](");
    }
    let mut links = false;
    let mut first = true;
    let mut pos: usize = 0;
    let ghost mut done: Seq<Seq<char>> = Seq::empty();
    proof {
        assert(b@.skip(0) =~= block);
    }
    loop
        invariant_except_break
            split_seq(block, "]("@) == done + split_seq(b@.skip(pos as int), "]("@),
            first <==> done.len() == 0,
            links == any_names_dir(targets_of(after_first(done)), want@),
        invariant
            pos <= b@.len(),
            block == b@,
            sep@ == "]("@,
            want@ == strip_trailing_slashes(hub_dir@),
        ensures
            split_seq(block, "]("@) == done,
            links == any_names_dir(targets_of(after_first(done)), want@),
        decreases b@.len() - pos,
    {
        let ghost rest = b@.skip(pos as int);
        proof {
            reveal_strlit("](");
            lemma_find_seq(rest, "]("@);
        }
        let found = find_seq_from(&b, pos, &sep);
        let end = match found {
            Some(e) => e,
            None => b.len(),
        };
        let ghost piece = b@.subrange(pos as int, end as int);
        proof {
            assert(rest.take(end - pos) =~= piece);
        }
        let hit = if first { false } else { piece_names_dir(&b, pos, end, &want) };
        proof {
            let nd = done.push(piece);
            if done.len() == 0 {
                assert(after_first(nd) =~= Seq::<Seq<char>>::empty());
                assert(after_first(done) =~= Seq::<Seq<char>>::empty());
            } else {
                assert(after_first(nd) =~= after_first(done).push(piece));
                assert(after_first(nd).drop_last() =~= after_first(done));
                lemma_any_names_dir_concat(targets_of(after_first(done)), piece_target(piece), want@);
            }
            match found {
                Some(e) => {
                    assert(split_seq(rest, "]("@) == seq![piece] + split_seq(b@.skip(e + 2), "]("@)) by {
                        assert(rest.skip(e - pos + 2) =~= b@.skip(e + 2));
                    }
                    assert(done + (seq![piece] + split_seq(b@.skip(e + 2), "]("@)) =~= nd + split_seq(b@.skip(e + 2), "]("@));
                },
                None => {
                    assert(rest =~= piece);
                    assert(split_seq(rest, "]("@) == seq![piece]);
                    assert(done + seq![piece] =~= nd);
                },
            }
            done = nd;
        }
        links = links || hit;
        first = false;
        match found {
            Some(e) => {
                pos = e + 2;
            },
            None => {
                break;
            },
        }
    }
    if links && dir_exists {
        None
    } else {
        let mut m = "`surf:hubs` block must link the hubs directory `".to_owned();
        let w = string_of_chars(&want);
        m.push_str(w.as_str());
        m.push_str("/` and it must exist \u{2014} agents read it to find context");
        proof {
            reveal_strlit("");
            assert(""@ =~= Seq::<char>::empty());
            assert(link_targets(block) == targets_of(after_first(done)));
            assert(!(any_names_dir(link_targets(block), strip_trailing_slashes(hub_dir@)) && dir_exists));
        }
        let f = make_finding(Severity::Block, "AGENTS.md", "", "", m);
        proof {
            assert(f@ == finding(Severity::Block, "AGENTS.md"@, Seq::empty(), Seq::empty(),
                    "`surf:hubs` block must link the hubs directory `"@ + strip_trailing_slashes(hub_dir@)
                        + "/` and it must exist \u{2014} agents read it to find context"@));
        }
        Some(f)
    }
}

fn string_of_chars(v: &Vec<char>) -> (s: String)
    ensures
        s@ == v@,
{
    let s = crate::text::string_of(v, 0, v.len());
    proof {
        assert(v@.subrange(0, v@.len() as int) =~= v@);
    }
    s
}

/// A text on one line, its words separated by single spaces, cut to `max` characters with an
/// ellipsis when longer.
pub open spec fn truncate_spec(s: Seq<char>, max: nat) -> Seq<char> {
    let line = join_text(crate::text::words(s), " "@);
    if line.len() <= max {
        line
    } else {
        line.take(max as int) + "\u{2026}"@
    }
}

/// `truncate_spec` of a text.
pub fn truncate(s: &str, max: usize) -> (r: String)
    ensures
        r@ == truncate_spec(s@, max as nat),
{
    let v = chars_of(s);
    proof {
        assert(v@.skip(0) =~= s@);
    }
    let ws = crate::text::words_from(&v, 0);
    let line = join_strings(ws.as_slice(), " ");
    let lv = chars_of(line.as_str());
    if lv.len() <= max {
        line
    } else {
        let mut r = crate::text::string_of(&lv, 0, max);
        r.push_str("\u{2026}");
        proof {
            assert(lv@.subrange(0, max as int) =~= lv@.take(max as int));
        }
        r
    }
}

/// Whether the lint passes: no finding blocks.
pub fn lint_passes(findings: &Vec<Finding>) -> (ok: bool)
    ensures
        ok == forall|i: int| 0 <= i < findings@.len() ==> (#[trigger] findings@[i]).severity == Severity::Warn,
{
    let mut k: usize = 0;
    while k < findings.len()
        invariant
            k <= findings@.len(),
            forall|i: int| 0 <= i < k ==> (#[trigger] findings@[i]).severity == Severity::Warn,
        decreases findings.len() - k,
    {
        match findings[k].severity {
            Severity::Block => return false,
            Severity::Warn => {},
        }
        k += 1;
    }
    true
}

} // verus!
