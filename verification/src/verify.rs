//! Re-stamping. After a human has confirmed that a claim's prose still holds, its anchors are
//! fingerprinted again and the fingerprint written back into the hub ("I looked, still
//! true"). With `follow`, a single-segment anchor whose symbol was renamed is re-pointed at
//! the symbol that now carries its stored fingerprint, and re-stamped in the same step.
//! Writes are surgical (one line per anchor) and skipped when nothing changed, so a verify
//! that changes nothing leaves the hub byte for byte as it was.
//!
//! Reading and writing files are the caller's; this module plans and edits text.

use vstd::prelude::*;
use crate::anchor::{Anchor, AnchorModel, parse_anchor, spec_parse_anchor, lemma_parsed_anchor_ok};
use crate::check::{site_target, site_target_spec, unreadable_text, reads_view};
use crate::hash::{HashOpts, combined, spec_hash_anchor, hash_anchor_with, combine_site_hashes, tokens_view};
use crate::hub::{Claim, ClaimModel, set_anchor_hash, set_anchor_at, hash_set, at_set};
use crate::lang::Lang;
use crate::rename::{find_renamed, spec_find_renamed};
use crate::resolve::{resolve_error_text, anchor_ok};
use crate::syntax::opt_view;
use crate::text::{views, join_text, join_strings, str_eq};

verus! {

broadcast use vstd::std_specs::vec::group_vec_axioms, vstd::seq::group_seq_axioms;

/// What verifying one claim will do.
pub enum Plan {
    /// Stamp this fingerprint.
    Hash(String),
    /// Re-point the anchor and stamp the fingerprint of its new target.
    Follow { new_at: String, new_hash: String },
    /// The stored fingerprint is current.
    Unchanged,
    /// Nothing can be done, for this reason.
    Skip(String),
}

pub enum PlanModel {
    Hash(Seq<char>),
    Follow(Seq<char>, Seq<char>),
    Unchanged,
    Skip(Seq<char>),
}

impl View for Plan {
    type V = PlanModel;

    open spec fn view(&self) -> PlanModel {
        match self {
            Plan::Hash(h) => PlanModel::Hash(h@),
            Plan::Follow { new_at, new_hash } => PlanModel::Follow(new_at@, new_hash@),
            Plan::Unchanged => PlanModel::Unchanged,
            Plan::Skip(r) => PlanModel::Skip(r@),
        }
    }
}

/// The fingerprint of one site, given the text of its file, or why there is none.
pub open spec fn site_hash_spec(site: Seq<char>, read: Option<Seq<char>>, opts: HashOpts) -> Result<Seq<char>, Seq<char>> {
    match site_target_spec(site) {
        Err(m) => Err(m),
        Ok((a, lang)) => match read {
            None => Err(unreadable_text(a.file)),
            Some(src) => match spec_hash_anchor(src, lang, a, opts) {
                Ok(h) => Ok(h),
                Err(e) => Err(resolve_error_text(e)),
            },
        },
    }
}

/// The fingerprints of the first `k` sites, or the first failure.
pub open spec fn site_hashes(sites: Seq<Seq<char>>, reads: Seq<Option<Seq<char>>>, opts: HashOpts, k: int) -> Result<Seq<Seq<char>>, Seq<char>>
    decreases k,
{
    if k <= 0 {
        Ok(Seq::empty())
    } else {
        match site_hashes(sites, reads, opts, k - 1) {
            Err(m) => Err(m),
            Ok(prev) => match site_hash_spec(sites[k - 1], reads[k - 1], opts) {
                Err(m) => Err(m),
                Ok(h) => Ok(prev.push(h)),
            },
        }
    }
}

/// Following a renamed symbol: a single-site, single-segment anchor with a stored
/// fingerprint is re-pointed at the symbol of its file that now carries that fingerprint.
pub open spec fn follow_plan(c: ClaimModel, reads: Seq<Option<Seq<char>>>) -> PlanModel {
    let opts = HashOpts { ignore_literals: c.ignore_literals };
    if c.sites.len() != 1 {
        PlanModel::Skip("--follow supports single-site anchors only"@)
    } else {
        match c.hash {
            None => PlanModel::Skip("--follow needs a stored hash to match against"@),
            Some(stored) => match site_target_spec(c.sites[0]) {
                Err(m) => PlanModel::Skip(m),
                Ok((a, lang)) => match reads[0] {
                    None => PlanModel::Skip(unreadable_text(a.file)),
                    Some(src) => if a.segments.len() != 1 {
                        PlanModel::Skip("--follow supports single-segment anchors only"@)
                    } else {
                        match spec_find_renamed(src, lang, stored, opts) {
                            Ok(Some(n)) => {
                                let new_at = a.file + " > "@ + n;
                                match spec_parse_anchor(new_at) {
                                    Ok(na) => match spec_hash_anchor(src, lang, na, opts) {
                                        Ok(h) => PlanModel::Follow(new_at, h),
                                        Err(_) => PlanModel::Skip("rename target did not re-resolve"@),
                                    },
                                    Err(_) => PlanModel::Skip("rename target did not re-resolve"@),
                                }
                            },
                            _ => PlanModel::Skip("does not resolve and no rename match; run `surf lint`"@),
                        }
                    },
                },
            },
        }
    }
}

/// What verifying a claim will do: stamp the combined fingerprint of its sites unless it is
/// already the stored one; when a site fails, skip it, or with `follow` try to follow a rename.
pub open spec fn claim_plan(c: ClaimModel, follow: bool, reads: Seq<Option<Seq<char>>>) -> PlanModel {
    let opts = HashOpts { ignore_literals: c.ignore_literals };
    match site_hashes(c.sites, reads, opts, c.sites.len() as int) {
        Ok(hs) => {
            let h = combined(hs);
            if c.hash == Some(h) {
                PlanModel::Unchanged
            } else {
                PlanModel::Hash(h)
            }
        },
        Err(m) => if !follow {
            PlanModel::Skip(m)
        } else {
            follow_plan(c, reads)
        },
    }
}

proof fn lemma_site_hashes_err(sites: Seq<Seq<char>>, reads: Seq<Option<Seq<char>>>, opts: HashOpts, k: int, n: int)
    requires
        1 <= k <= n,
        site_hashes(sites, reads, opts, k) is Err,
    ensures
        site_hashes(sites, reads, opts, n) == site_hashes(sites, reads, opts, k),
    decreases n - k,
{
    if n > k {
        lemma_site_hashes_err(sites, reads, opts, k, n - 1);
    }
}

/// The follow plan (see `follow_plan`), given the text of the first site's file.
pub fn plan_follow(claim: &Claim, reads: &Vec<Option<String>>) -> (p: Plan)
    requires
        reads@.len() == claim@.sites.len(),
    ensures
        p@ == follow_plan(claim@, reads_view(reads@)),
{
    let ghost c = claim@;
    let sites = claim.at.sites();
    proof {
        assert(views(sites@) =~= c.sites);
    }
    if sites.len() != 1 {
        return Plan::Skip("--follow supports single-site anchors only".to_owned());
    }
    let stored = match &claim.hash {
        None => return Plan::Skip("--follow needs a stored hash to match against".to_owned()),
        Some(h) => h,
    };
    proof {
        assert(c.sites[0] == sites@[0]@);
        assert(reads_view(reads@)[0] == opt_view(reads@[0]));
    }
    let (anchor, lang) = match site_target(sites[0].as_str()) {
        Err(m) => return Plan::Skip(m),
        Ok(t) => t,
    };
    let src = match &reads[0] {
        None => {
            let mut m = "cannot read `".to_owned();
            m.push_str(anchor.file.as_str());
            m.push_str("`");
            return Plan::Skip(m);
        },
        Some(s) => s,
    };
    if anchor.segments.len() != 1 {
        return Plan::Skip("--follow supports single-segment anchors only".to_owned());
    }
    let opts = HashOpts { ignore_literals: claim.ignore_literals };
    match find_renamed(src.as_str(), lang, stored.as_str(), opts) {
        Ok(Some(new_name)) => {
            let mut new_at = anchor.file.clone();
            new_at.push_str(" > ");
            new_at.push_str(new_name.as_str());
            match parse_anchor(new_at.as_str()) {
                Ok(na) => match hash_anchor_with(src.as_str(), lang, &na, opts) {
                    Ok(h) => Plan::Follow { new_at, new_hash: h },
                    Err(_) => Plan::Skip("rename target did not re-resolve".to_owned()),
                },
                Err(_) => Plan::Skip("rename target did not re-resolve".to_owned()),
            }
        },
        _ => Plan::Skip("does not resolve and no rename match; run `surf lint`".to_owned()),
    }
}

/// The plan for one claim (see `claim_plan`), given the text of each site's file.
pub fn plan_claim(claim: &Claim, follow: bool, reads: &Vec<Option<String>>) -> (p: Plan)
    requires
        reads@.len() == claim@.sites.len(),
    ensures
        p@ == claim_plan(claim@, follow, reads_view(reads@)),
{
    let ghost c = claim@;
    let ghost rv = reads_view(reads@);
    let opts = HashOpts { ignore_literals: claim.ignore_literals };
    let sites = claim.at.sites();
    proof {
        assert(views(sites@) =~= c.sites);
    }
    let mut hashes: Vec<String> = Vec::new();
    let mut k: usize = 0;
    proof {
        assert(tokens_view(hashes@) =~= Seq::<Seq<char>>::empty());
    }
    while k < sites.len()
        invariant
            k <= sites@.len() == c.sites.len() == reads@.len(),
            c == claim@,
            rv == reads_view(reads@),
            views(sites@) == c.sites,
            opts == (HashOpts { ignore_literals: c.ignore_literals }),
            site_hashes(c.sites, rv, opts, k as int) == Ok::<Seq<Seq<char>>, Seq<char>>(tokens_view(hashes@)),
        decreases sites.len() - k,
    {
        proof {
            assert(c.sites[k as int] == sites@[k as int]@);
            assert(rv[k as int] == opt_view(reads@[k as int]));
        }
        let failure: Option<String> = match site_target(sites[k].as_str()) {
            Err(m) => Some(m),
            Ok((anchor, lang)) => match &reads[k] {
                None => {
                    let mut m = "cannot read `".to_owned();
                    m.push_str(anchor.file.as_str());
                    m.push_str("`");
                    Some(m)
                },
                Some(src) => match hash_anchor_with(src.as_str(), lang, &anchor, opts) {
                    Err(e) => Some(e.message()),
                    Ok(h) => {
                        proof {
                            assert(tokens_view(hashes@.push(h)) =~= tokens_view(hashes@).push(h@));
                        }
                        hashes.push(h);
                        None
                    },
                },
            },
        };
        match failure {
            Some(m) => {
                proof {
                    assert(site_hashes(c.sites, rv, opts, k + 1) == Err::<Seq<Seq<char>>, Seq<char>>(m@));
                    lemma_site_hashes_err(c.sites, rv, opts, k + 1, c.sites.len() as int);
                }
                if !follow {
                    return Plan::Skip(m);
                }
                return plan_follow(claim, reads);
            },
            None => {},
        }
        k += 1;
    }
    let h = combine_site_hashes(&hashes);
    let same = match &claim.hash {
        Some(stored) => str_eq(stored.as_str(), h.as_str()),
        None => false,
    };
    if same {
        Plan::Unchanged
    } else {
        Plan::Hash(h)
    }
}

/// What verifying one anchor did.
pub enum VerifyOutcome {
    Stamped,
    Followed { new_at: String },
    Unchanged,
    Skipped { reason: String },
}

pub enum OutcomeModel {
    Stamped,
    Followed(Seq<char>),
    Unchanged,
    Skipped(Seq<char>),
}

impl View for VerifyOutcome {
    type V = OutcomeModel;

    open spec fn view(&self) -> OutcomeModel {
        match self {
            VerifyOutcome::Stamped => OutcomeModel::Stamped,
            VerifyOutcome::Followed { new_at } => OutcomeModel::Followed(new_at@),
            VerifyOutcome::Unchanged => OutcomeModel::Unchanged,
            VerifyOutcome::Skipped { reason } => OutcomeModel::Skipped(reason@),
        }
    }
}

/// The outcome of one anchor of a hub.
pub struct AnchorResult {
    pub hub: String,
    pub at: String,
    pub outcome: VerifyOutcome,
}

/// The tally of a verify run.
pub struct VerifyReport {
    pub stamped: usize,
    pub unchanged: usize,
    pub errors: usize,
    pub anchors: Vec<AnchorResult>,
    pub updated_files: Vec<String>,
}

/// Carrying out a plan on the hub's text for the anchor at `idx`: the new text and the
/// outcome. A failed edit leaves the text as it was.
pub open spec fn apply_plan(text: Seq<char>, idx: int, plan: PlanModel) -> (Seq<char>, OutcomeModel) {
    match plan {
        PlanModel::Hash(h) => match hash_set(text, idx, h) {
            Some(t) => (t, OutcomeModel::Stamped),
            None => (text, OutcomeModel::Skipped("could not write hash"@)),
        },
        PlanModel::Follow(new_at, h) => match at_set(text, idx, new_at) {
            Some(t1) => match hash_set(t1, idx, h) {
                Some(t2) => (t2, OutcomeModel::Followed(new_at)),
                None => (text, OutcomeModel::Skipped("could not rewrite at:"@)),
            },
            None => (text, OutcomeModel::Skipped("could not rewrite at:"@)),
        },
        PlanModel::Unchanged => (text, OutcomeModel::Unchanged),
        PlanModel::Skip(r) => (text, OutcomeModel::Skipped(r)),
    }
}

/// Carries out a plan (see `apply_plan`) on `text`, and tallies the outcome.
pub fn apply(text: &mut String, idx: usize, plan: Plan, report: &mut VerifyReport) -> (o: VerifyOutcome)
    requires
        old(report).stamped < usize::MAX,
        old(report).unchanged < usize::MAX,
        old(report).errors < usize::MAX,
    ensures
        (final(text)@, o@) == apply_plan(old(text)@, idx as int, plan@),
        final(report).stamped == old(report).stamped + (if o@ is Stamped || o@ is Followed { 1int } else { 0 }),
        final(report).unchanged == old(report).unchanged + (if o@ is Unchanged { 1int } else { 0 }),
        final(report).errors == old(report).errors + (if o@ is Skipped { 1int } else { 0 }),
        final(report).anchors@ == old(report).anchors@,
        final(report).updated_files@ == old(report).updated_files@,
{
    match plan {
        Plan::Hash(h) => match set_anchor_hash(text.as_str(), idx, h.as_str()) {
            Some(t) => {
                *text = t;
                report.stamped = report.stamped + 1;
                VerifyOutcome::Stamped
            },
            None => {
                report.errors = report.errors + 1;
                VerifyOutcome::Skipped { reason: "could not write hash".to_owned() }
            },
        },
        Plan::Follow { new_at, new_hash } => {
            let moved = match set_anchor_at(text.as_str(), idx, new_at.as_str()) {
                Some(t1) => set_anchor_hash(t1.as_str(), idx, new_hash.as_str()),
                None => None,
            };
            match moved {
                Some(t2) => {
                    *text = t2;
                    report.stamped = report.stamped + 1;
                    VerifyOutcome::Followed { new_at }
                },
                None => {
                    report.errors = report.errors + 1;
                    VerifyOutcome::Skipped { reason: "could not rewrite at:".to_owned() }
                },
            }
        },
        Plan::Unchanged => {
            report.unchanged = report.unchanged + 1;
            VerifyOutcome::Unchanged
        },
        Plan::Skip(reason) => {
            report.errors = report.errors + 1;
            VerifyOutcome::Skipped { reason }
        },
    }
}

/// A plan that neither stamps nor follows leaves the hub's text byte for byte as it was.
pub proof fn lemma_idle_plan_keeps_text(text: Seq<char>, idx: int, plan: PlanModel)
    requires
        plan is Unchanged || plan is Skip,
    ensures
        apply_plan(text, idx, plan).0 == text,
{
}

/// Stamping the fingerprint an anchor already records leaves the hub's text byte for byte
/// as it was.
pub proof fn lemma_restamp_keeps_text(text: Seq<char>, idx: int, h: Seq<char>)
    requires
        crate::hub::records_hash(text, idx, h),
    ensures
        apply_plan(text, idx, PlanModel::Hash(h)) == (text, OutcomeModel::Stamped),
{
    crate::hub::lemma_same_hash_is_identity(text, idx, h);
}

/// Once a claim records the fingerprint a plan stamps, planning it again (on the same files)
/// finds it current: a second verify stamps nothing.
pub proof fn lemma_stamped_claim_is_current(c: ClaimModel, follow: bool, again: bool, reads: Seq<Option<Seq<char>>>)
    requires
        claim_plan(c, follow, reads) is Hash,
    ensures
        claim_plan(ClaimModel { hash: Some(claim_plan(c, follow, reads)->Hash_0), ..c }, again, reads) is Unchanged,
{
}

/// Whether an anchor is selected by the target, if any: one of its sites is exactly it.
pub open spec fn selected(c: ClaimModel, target: Option<Seq<char>>) -> bool {
    match target {
        None => true,
        Some(t) => exists|i: int| 0 <= i < c.sites.len() && c.sites[i] == t,
    }
}

/// Whether the anchor is selected by `target` (see `selected`).
pub fn is_selected(claim: &Claim, target: Option<&str>) -> (b: bool)
    ensures
        b == selected(claim@, crate::lint::opt_str_view(target)),
{
    let t = match target {
        None => return true,
        Some(t) => t,
    };
    let sites = claim.at.sites();
    proof {
        assert(views(sites@) =~= claim@.sites);
    }
    let mut k: usize = 0;
    while k < sites.len()
        invariant
            k <= sites@.len(),
            views(sites@) == claim@.sites,
            crate::lint::opt_str_view(target) == Some(t@),
            forall|i: int| 0 <= i < k ==> claim@.sites[i] != t@,
        decreases sites.len() - k,
    {
        proof {
            assert(claim@.sites[k as int] == sites@[k as int]@);
        }
        if str_eq(sites[k].as_str(), t) {
            proof {
                assert(claim@.sites[k as int] == t@);
            }
            return true;
        }
        k += 1;
    }
    false
}

/// How the anchor's sites are shown in a result.
pub fn sites_display(claim: &Claim) -> (s: String)
    ensures
        s@ == join_text(claim@.sites, "  +  "@),
{
    let sites = claim.at.sites();
    proof {
        assert(views(sites@) =~= claim@.sites);
    }
    join_strings(sites, "  +  ")
}

pub open spec fn claims_view(cs: Seq<Claim>) -> Seq<ClaimModel> {
    cs.map_values(|c: Claim| c@)
}

pub open spec fn all_reads_view(rs: Seq<Vec<Option<String>>>) -> Seq<Seq<Option<Seq<char>>>> {
    rs.map_values(|r: Vec<Option<String>>| reads_view(r@))
}

/// The outcomes among `rs` of a kind.
pub open spec fn count_outcomes(rs: Seq<(Seq<char>, OutcomeModel)>, kind: spec_fn(OutcomeModel) -> bool) -> nat
    decreases rs.len(),
{
    if rs.len() == 0 {
        0
    } else {
        count_outcomes(rs.drop_last(), kind) + if kind(rs.last().1) { 1nat } else { 0nat }
    }
}

proof fn lemma_all_current_counts(rs: Seq<(Seq<char>, OutcomeModel)>)
    requires
        forall|j: int| 0 <= j < rs.len() ==> (#[trigger] rs[j]).1 is Unchanged,
    ensures
        count_outcomes(rs, is_stamp()) == 0,
        count_outcomes(rs, is_skip()) == 0,
        count_outcomes(rs, is_current()) == rs.len(),
    decreases rs.len(),
{
    if rs.len() > 0 {
        assert forall|j: int| 0 <= j < rs.drop_last().len() implies (#[trigger] rs.drop_last()[j]).1 is Unchanged by {
            assert(rs.drop_last()[j] == rs[j]);
        }
        lemma_all_current_counts(rs.drop_last());
        assert(rs.last() == rs[rs.len() - 1]);
    }
}

/// An anchor stamped, or re-pointed and stamped.
pub open spec fn is_stamp() -> spec_fn(OutcomeModel) -> bool {
    |o: OutcomeModel| o is Stamped || o is Followed
}

pub open spec fn is_current() -> spec_fn(OutcomeModel) -> bool {
    |o: OutcomeModel| o is Unchanged
}

pub open spec fn is_skip() -> spec_fn(OutcomeModel) -> bool {
    |o: OutcomeModel| o is Skipped
}

/// Verifying the first `k` anchors of a hub's text: the text after their edits, and each
/// selected anchor's shown sites and outcome, in order.
pub open spec fn hub_pass(
    text: Seq<char>,
    cs: Seq<ClaimModel>,
    target: Option<Seq<char>>,
    follow: bool,
    reads: Seq<Seq<Option<Seq<char>>>>,
    k: int,
) -> (Seq<char>, Seq<(Seq<char>, OutcomeModel)>)
    decreases k,
{
    if k <= 0 {
        (text, Seq::empty())
    } else {
        let (t, rs) = hub_pass(text, cs, target, follow, reads, k - 1);
        let c = cs[k - 1];
        if selected(c, target) {
            let (t2, o) = apply_plan(t, k - 1, claim_plan(c, follow, reads[k - 1]));
            (t2, rs.push((join_text(c.sites, "  +  "@), o)))
        } else {
            (t, rs)
        }
    }
}

/// The claims as a second verify reads them back: each selected claim whose plan stamped a
/// fingerprint now records it.
pub open spec fn restamped(cs: Seq<ClaimModel>, target: Option<Seq<char>>, follow: bool, reads: Seq<Seq<Option<Seq<char>>>>) -> Seq<ClaimModel> {
    Seq::new(
        cs.len(),
        |i: int|
            if selected(cs[i], target) && claim_plan(cs[i], follow, reads[i]) is Hash {
                ClaimModel { hash: Some(claim_plan(cs[i], follow, reads[i])->Hash_0), ..cs[i] }
            } else {
                cs[i]
            },
    )
}

proof fn lemma_second_pass(
    text: Seq<char>,
    cs: Seq<ClaimModel>,
    target: Option<Seq<char>>,
    follow: bool,
    reads: Seq<Seq<Option<Seq<char>>>>,
    k: int,
)
    requires
        0 <= k <= cs.len(),
        reads.len() == cs.len(),
        forall|i: int| 0 <= i < cs.len() && selected(cs[i], target) ==> (#[trigger] claim_plan(cs[i], follow, reads[i])) is Hash
            || claim_plan(cs[i], follow, reads[i]) is Unchanged,
    ensures
        hub_pass(text, restamped(cs, target, follow, reads), target, follow, reads, k).0 == text,
        forall|j: int| 0 <= j < hub_pass(text, restamped(cs, target, follow, reads), target, follow, reads, k).1.len()
            ==> (#[trigger] hub_pass(text, restamped(cs, target, follow, reads), target, follow, reads, k).1[j]).1 is Unchanged,
    decreases k,
{
    if k > 0 {
        lemma_second_pass(text, cs, target, follow, reads, k - 1);
        let r = restamped(cs, target, follow, reads);
        let c = cs[k - 1];
        assert(r[k - 1].sites == c.sites);
        assert(selected(r[k - 1], target) == selected(c, target));
        if selected(c, target) {
            if claim_plan(c, follow, reads[k - 1]) is Hash {
                lemma_stamped_claim_is_current(c, follow, follow, reads[k - 1]);
            }
            assert(claim_plan(r[k - 1], follow, reads[k - 1]) is Unchanged);
            let prev = hub_pass(text, r, target, follow, reads, k - 1);
            let now = hub_pass(text, r, target, follow, reads, k);
            assert forall|j: int| 0 <= j < now.1.len() implies (#[trigger] now.1[j]).1 is Unchanged by {
                if j < prev.1.len() {
                    assert(now.1[j] == prev.1[j]);
                }
            }
        }
    }
}

/// Verifying a hub twice: when the first pass only stamps or finds anchors current, a second
/// pass over the claims as they then read (each stamped fingerprint recorded) finds every
/// selected anchor current and leaves the text the first pass wrote byte for byte.
pub proof fn lemma_verify_twice(
    text: Seq<char>,
    cs: Seq<ClaimModel>,
    target: Option<Seq<char>>,
    follow: bool,
    reads: Seq<Seq<Option<Seq<char>>>>,
)
    requires
        reads.len() == cs.len(),
        forall|i: int| 0 <= i < cs.len() && selected(cs[i], target) ==> (#[trigger] claim_plan(cs[i], follow, reads[i])) is Hash
            || claim_plan(cs[i], follow, reads[i]) is Unchanged,
    ensures
        ({
            let t1 = hub_pass(text, cs, target, follow, reads, cs.len() as int).0;
            let second = hub_pass(t1, restamped(cs, target, follow, reads), target, follow, reads, cs.len() as int);
            &&& second.0 == t1
            &&& forall|j: int| 0 <= j < second.1.len() ==> (#[trigger] second.1[j]).1 is Unchanged
            &&& count_outcomes(second.1, is_stamp()) == 0
            &&& count_outcomes(second.1, is_skip()) == 0
            &&& count_outcomes(second.1, is_current()) == second.1.len()
        }),
{
    let t1 = hub_pass(text, cs, target, follow, reads, cs.len() as int).0;
    lemma_second_pass(t1, cs, target, follow, reads, cs.len() as int);
    lemma_all_current_counts(hub_pass(t1, restamped(cs, target, follow, reads), target, follow, reads, cs.len() as int).1);
}

/// When no selected anchor's plan stamps or follows, verifying a hub leaves its text byte for
/// byte as it was.
pub proof fn lemma_idle_hub_keeps_text(
    text: Seq<char>,
    cs: Seq<ClaimModel>,
    target: Option<Seq<char>>,
    follow: bool,
    reads: Seq<Seq<Option<Seq<char>>>>,
    k: int,
)
    requires
        k <= cs.len(),
        k <= reads.len(),
        forall|i: int| 0 <= i < k && selected(cs[i], target) ==> (#[trigger] claim_plan(cs[i], follow, reads[i])) is Unchanged
            || claim_plan(cs[i], follow, reads[i]) is Skip,
    ensures
        hub_pass(text, cs, target, follow, reads, k).0 == text,
    decreases k,
{
    if k > 0 {
        lemma_idle_hub_keeps_text(text, cs, target, follow, reads, k - 1);
        if selected(cs[k - 1], target) {
            assert(claim_plan(cs[k - 1], follow, reads[k - 1]) is Unchanged || claim_plan(cs[k - 1], follow, reads[k - 1]) is Skip);
        }
    }
}

pub open spec fn results_view(v: Seq<AnchorResult>) -> Seq<(Seq<char>, Seq<char>, OutcomeModel)> {
    v.map_values(|a: AnchorResult| (a.hub@, a.at@, a.outcome@))
}

/// Verifies the anchors of the hub `rel` whose text is `original`: each anchor selected by
/// `target` is planned from the text of its sites' files (`reads`, per anchor and site) and
/// the plan carried out on the text. Returns the new text and whether any anchor was
/// selected; the outcomes are appended to the report, and `rel` is listed as updated when
/// the text changed.
pub fn verify_hub(
    rel: &str,
    original: &str,
    claims: &Vec<Claim>,
    target: Option<&str>,
    follow: bool,
    reads: &Vec<Vec<Option<String>>>,
    report: &mut VerifyReport,
) -> (r: (String, bool))
    requires
        reads@.len() == claims@.len(),
        forall|k: int| 0 <= k < claims@.len() ==> (#[trigger] reads@[k])@.len() == claims@[k]@.sites.len(),
        old(report).stamped + claims@.len() < usize::MAX,
        old(report).unchanged + claims@.len() < usize::MAX,
        old(report).errors + claims@.len() < usize::MAX,
    ensures
        ({
            let (t, rs) = hub_pass(original@, claims_view(claims@), crate::lint::opt_str_view(target), follow, all_reads_view(reads@), claims@.len() as int);
            &&& r.0@ == t
            &&& results_view(final(report).anchors@) == results_view(old(report).anchors@) + rs.map_values(
                |x: (Seq<char>, OutcomeModel)| (rel@, x.0, x.1),
            )
            &&& views(final(report).updated_files@) == views(old(report).updated_files@) + (if t == original@ { Seq::empty() } else { seq![rel@] })
            &&& r.1 == exists|i: int| 0 <= i < claims@.len() && selected(#[trigger] claims@[i]@, crate::lint::opt_str_view(target))
            &&& final(report).stamped == old(report).stamped + count_outcomes(rs, is_stamp())
            &&& final(report).unchanged == old(report).unchanged + count_outcomes(rs, is_current())
            &&& final(report).errors == old(report).errors + count_outcomes(rs, is_skip())
        }),
{
    let ghost s0 = report.stamped as int;
    let ghost u0 = report.unchanged as int;
    let ghost e0 = report.errors as int;
    let ghost cs = claims_view(claims@);
    let ghost rv = all_reads_view(reads@);
    let ghost tg = crate::lint::opt_str_view(target);
    let ghost start = results_view(report.anchors@);
    let ghost files0 = views(report.updated_files@);
    let mut text = original.to_owned();
    let mut matched_any = false;
    let mut k: usize = 0;
    while k < claims.len()
        invariant
            k <= claims@.len() == reads@.len(),
            cs == claims_view(claims@),
            rv == all_reads_view(reads@),
            tg == crate::lint::opt_str_view(target),
            forall|i: int| 0 <= i < claims@.len() ==> (#[trigger] reads@[i])@.len() == claims@[i]@.sites.len(),
            report.stamped + (claims@.len() - k) < usize::MAX,
            report.unchanged + (claims@.len() - k) < usize::MAX,
            report.errors + (claims@.len() - k) < usize::MAX,
            views(report.updated_files@) == files0,
            ({
                let (t, rs) = hub_pass(original@, cs, tg, follow, rv, k as int);
                &&& text@ == t
                &&& results_view(report.anchors@) == start + rs.map_values(|x: (Seq<char>, OutcomeModel)| (rel@, x.0, x.1))
                &&& report.stamped == s0 + count_outcomes(rs, is_stamp())
                &&& report.unchanged == u0 + count_outcomes(rs, is_current())
                &&& report.errors == e0 + count_outcomes(rs, is_skip())
            }),
            matched_any == exists|i: int| 0 <= i < k && selected(#[trigger] claims@[i]@, tg),
        decreases claims.len() - k,
    {
        let claim = &claims[k];
        proof {
            assert(cs[k as int] == claim@);
            assert(rv[k as int] == reads_view(reads@[k as int]@));
        }
        let ghost (t0, rs0) = hub_pass(original@, cs, tg, follow, rv, k as int);
        if is_selected(claim, target) {
            matched_any = true;
            let at = sites_display(claim);
            let plan = plan_claim(claim, follow, &reads[k]);
            let outcome = apply(&mut text, k, plan, report);
            let res = AnchorResult { hub: rel.to_owned(), at, outcome };
            proof {
                let (t1, rs1) = hub_pass(original@, cs, tg, follow, rv, k + 1);
                assert(rs1 == rs0.push((join_text(cs[k as int].sites, "  +  "@), res.outcome@)));
                assert(rs1.drop_last() =~= rs0);
                assert(results_view(report.anchors@.push(res)) =~= results_view(report.anchors@).push((rel@, res.at@, res.outcome@)));
                assert(rs1.map_values(|x: (Seq<char>, OutcomeModel)| (rel@, x.0, x.1)) =~= rs0.map_values(
                    |x: (Seq<char>, OutcomeModel)| (rel@, x.0, x.1),
                ).push((rel@, res.at@, res.outcome@)));
            }
            report.anchors.push(res);
        }
        k += 1;
    }
    let changed = !str_eq(text.as_str(), original);
    if changed {
        let name = rel.to_owned();
        proof {
            assert(views(report.updated_files@.push(name)) =~= views(report.updated_files@).push(rel@));
        }
        report.updated_files.push(name);
    } else {
        proof {
            assert(views(report.updated_files@) + Seq::<Seq<char>>::empty() =~= views(report.updated_files@));
        }
    }
    (text, matched_any)
}

} // verus!
