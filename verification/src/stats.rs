//! Adoption metrics over version-control history, computed commit by commit.
//!
//! - Rubber-stamp rate: of the re-stamp events (a claim's stored fingerprint changed value in
//!   a commit), the share where the claim's prose was left untouched.
//! - In-place update rate: of the claim-touch events (a commit changed a file a claim
//!   anchors), the share where the claim's stored fingerprint changed in the same commit.
//!
//! A claim is identified by its sites. Walking the history, reading hubs at past revisions
//! and dividing the tallies are the caller's; this module keeps the claim state of each
//! commit and counts the events of one commit against its first parent.

use vstd::prelude::*;
use crate::check::anchor_files;
use crate::hub::{Claim, ClaimModel};
use crate::syntax::opt_view;
use crate::text::{trim, views, join_text, join_strings, trim_string, first_where, lemma_first_where, str_eq};
use crate::anchor::parse_anchor;

verus! {

broadcast use vstd::std_specs::vec::group_vec_axioms, vstd::seq::group_seq_axioms;

/// One claim of a hub at some revision.
pub struct ClaimRec {
    pub hub: String,
    /// The claim's identity: its sites joined with ` + `.
    pub id: String,
    pub hash: Option<String>,
    /// The claim's prose, trimmed.
    pub prose: String,
    /// The files its sites anchor.
    pub files: Vec<String>,
}

pub struct RecModel {
    pub hub: Seq<char>,
    pub id: Seq<char>,
    pub hash: Option<Seq<char>>,
    pub prose: Seq<char>,
    pub files: Seq<Seq<char>>,
}

impl View for ClaimRec {
    type V = RecModel;

    open spec fn view(&self) -> RecModel {
        RecModel { hub: self.hub@, id: self.id@, hash: opt_view(self.hash), prose: self.prose@, files: views(self.files@) }
    }
}

pub open spec fn recs_view(v: Seq<ClaimRec>) -> Seq<RecModel> {
    v.map_values(|r: ClaimRec| r@)
}

/// The record of a claim of `hub`.
pub open spec fn claim_rec(hub: Seq<char>, c: ClaimModel) -> RecModel {
    RecModel { hub, id: join_text(c.sites, " + "@), hash: c.hash, prose: trim(c.claim), files: anchor_files(c.sites) }
}

/// The records of the claims of `hub`, in order.
pub fn hub_claim_recs(hub: &str, claims: &Vec<Claim>) -> (r: Vec<ClaimRec>)
    ensures
        recs_view(r@) == claims@.map_values(|c: Claim| claim_rec(hub@, c@)),
{
    let mut out: Vec<ClaimRec> = Vec::new();
    let mut k: usize = 0;
    while k < claims.len()
        invariant
            k <= claims@.len(),
            recs_view(out@) == claims@.map_values(|c: Claim| claim_rec(hub@, c@)).take(k as int),
        decreases claims.len() - k,
    {
        let claim = &claims[k];
        let sites = claim.at.sites();
        proof {
            assert(views(sites@) =~= claim@.sites);
        }
        let id = join_strings(sites, " + ");
        let mut files: Vec<String> = Vec::new();
        let mut s: usize = 0;
        while s < sites.len()
            invariant
                s <= sites@.len(),
                views(sites@) == claim@.sites,
                views(files@) == anchor_files(claim@.sites.take(s as int)),
            decreases sites.len() - s,
        {
            proof {
                assert(claim@.sites.take(s + 1).drop_last() =~= claim@.sites.take(s as int));
                assert(claim@.sites.take(s + 1).last() == sites@[s as int]@);
            }
            match parse_anchor(sites[s].as_str()) {
                Ok(a) => {
                    proof {
                        assert(views(files@.push(a.file)) =~= views(files@) + seq![a.file@]);
                    }
                    files.push(a.file);
                },
                Err(_) => {
                    proof {
                        assert(views(files@) + Seq::<Seq<char>>::empty() =~= views(files@));
                    }
                },
            }
            s += 1;
        }
        proof {
            assert(claim@.sites.take(s as int) =~= claim@.sites);
        }
        let hash = match &claim.hash {
            Some(h) => Some(h.clone()),
            None => None,
        };
        let rec = ClaimRec { hub: hub.to_owned(), id, hash, prose: trim_string(claim.claim.as_str()), files };
        proof {
            assert(rec@ == claim_rec(hub@, claim@));
            assert(recs_view(out@.push(rec)) =~= recs_view(out@).push(rec@));
            assert(claims@.map_values(|c: Claim| claim_rec(hub@, c@)).take(k + 1) =~= claims@.map_values(
                |c: Claim| claim_rec(hub@, c@),
            ).take(k as int).push(claim_rec(hub@, claim@)));
        }
        out.push(rec);
        k += 1;
    }
    proof {
        assert(claims@.map_values(|c: Claim| claim_rec(hub@, c@)).take(k as int) =~= claims@.map_values(
            |c: Claim| claim_rec(hub@, c@),
        ));
    }
    out
}

/// The claims of one hub at a revision.
pub struct HubClaims {
    pub hub: String,
    pub claims: Vec<ClaimRec>,
}

pub struct HubModel {
    pub hub: Seq<char>,
    pub claims: Seq<RecModel>,
}

impl View for HubClaims {
    type V = HubModel;

    open spec fn view(&self) -> HubModel {
        HubModel { hub: self.hub@, claims: recs_view(self.claims@) }
    }
}

pub open spec fn state_view(v: Seq<HubClaims>) -> Seq<HubModel> {
    v.map_values(|h: HubClaims| h@)
}

/// The tallies of events.
pub struct EventCounts {
    pub rubber_stamped: usize,
    pub restamped: usize,
    pub updated_in_place: usize,
    pub touched: usize,
}

pub struct Events {
    pub rubber_stamped: nat,
    pub restamped: nat,
    pub updated_in_place: nat,
    pub touched: nat,
}

pub open spec fn events_add(a: Events, b: Events) -> Events {
    Events {
        rubber_stamped: a.rubber_stamped + b.rubber_stamped,
        restamped: a.restamped + b.restamped,
        updated_in_place: a.updated_in_place + b.updated_in_place,
        touched: a.touched + b.touched,
    }
}

pub open spec fn no_events() -> Events {
    Events { rubber_stamped: 0, restamped: 0, updated_in_place: 0, touched: 0 }
}

pub open spec fn has_hub(h: Seq<char>) -> spec_fn(HubModel) -> bool {
    |m: HubModel| m.hub == h
}

pub open spec fn has_id(id: Seq<char>) -> spec_fn(RecModel) -> bool {
    |r: RecModel| r.id == id
}

/// The first-parent version of a claim: the first claim with its identity in the same hub.
pub open spec fn prev_claim(before: Seq<HubModel>, hub: Seq<char>, id: Seq<char>) -> Option<RecModel> {
    match first_where(before, has_hub(hub)) {
        None => None,
        Some(i) => match first_where(before[i].claims, has_id(id)) {
            None => None,
            Some(j) => Some(before[i].claims[j]),
        },
    }
}

/// Some file the claim anchors is among the changed ones.
pub open spec fn touches(c: RecModel, changed: Seq<Seq<char>>) -> bool {
    exists|i: int| 0 <= i < c.files.len() && changed.contains(#[trigger] c.files[i])
}

/// The events one claim of a commit makes against its first-parent version: a re-stamp when
/// an already stamped claim's fingerprint changed value (rubber-stamped when its prose did
/// not change); a touch when the commit changed a file it anchors (updated in place when its
/// stored fingerprint changed, or appeared, in the same commit).
pub open spec fn claim_events(prev: Option<RecModel>, c: RecModel, changed: Seq<Seq<char>>) -> Events {
    let restamp = match (prev, c.hash) {
        (Some(p), Some(new_hash)) => match p.hash {
            Some(old_hash) => old_hash != new_hash,
            None => false,
        },
        _ => false,
    };
    let rubber = restamp && match prev {
        Some(p) => p.prose == c.prose,
        None => false,
    };
    let touched = touches(c, changed);
    let updated = touched && match prev {
        Some(p) => p.hash != c.hash,
        None => c.hash is Some,
    };
    Events {
        rubber_stamped: if rubber { 1 } else { 0 },
        restamped: if restamp { 1 } else { 0 },
        updated_in_place: if updated { 1 } else { 0 },
        touched: if touched { 1 } else { 0 },
    }
}

/// The events of the first `k` claims of a hub.
pub open spec fn hub_events(before: Seq<HubModel>, h: HubModel, changed: Seq<Seq<char>>, k: int) -> Events
    decreases k,
{
    if k <= 0 {
        no_events()
    } else {
        events_add(hub_events(before, h, changed, k - 1), claim_events(prev_claim(before, h.hub, h.claims[k - 1].id), h.claims[k - 1], changed))
    }
}

/// The events of a commit: every claim of every hub after it, against the state before it.
pub open spec fn commit_events_spec(before: Seq<HubModel>, after: Seq<HubModel>, changed: Seq<Seq<char>>, k: int) -> Events
    decreases k,
{
    if k <= 0 {
        no_events()
    } else {
        events_add(commit_events_spec(before, after, changed, k - 1), hub_events(before, after[k - 1], changed, after[k - 1].claims.len() as int))
    }
}

/// The number of claims in a state.
pub open spec fn claim_count(s: Seq<HubModel>, k: int) -> nat
    decreases k,
{
    if k <= 0 {
        0
    } else {
        claim_count(s, k - 1) + s[k - 1].claims.len()
    }
}

fn find_hub(before: &Vec<HubClaims>, hub: &String) -> (r: Option<usize>)
    ensures
        match r {
            Some(i) => first_where(state_view(before@), has_hub(hub@)) == Some(i as int) && i < before@.len(),
            None => first_where(state_view(before@), has_hub(hub@)) is None,
        },
{
    let ghost sv = state_view(before@);
    let mut i: usize = 0;
    while i < before.len()
        invariant
            i <= before@.len(),
            sv == state_view(before@),
            forall|k: int| 0 <= k < i ==> !has_hub(hub@)(#[trigger] sv[k]),
        decreases before.len() - i,
    {
        if str_eq(before[i].hub.as_str(), hub.as_str()) {
            proof {
                lemma_first_where(sv, has_hub(hub@), i as int);
            }
            return Some(i);
        }
        i += 1;
    }
    proof {
        lemma_first_where(sv, has_hub(hub@), i as int);
    }
    None
}

fn find_claim(claims: &Vec<ClaimRec>, id: &String) -> (r: Option<usize>)
    ensures
        match r {
            Some(j) => first_where(recs_view(claims@), has_id(id@)) == Some(j as int) && j < claims@.len(),
            None => first_where(recs_view(claims@), has_id(id@)) is None,
        },
{
    let ghost rv = recs_view(claims@);
    let mut j: usize = 0;
    while j < claims.len()
        invariant
            j <= claims@.len(),
            rv == recs_view(claims@),
            forall|k: int| 0 <= k < j ==> !has_id(id@)(#[trigger] rv[k]),
        decreases claims.len() - j,
    {
        if str_eq(claims[j].id.as_str(), id.as_str()) {
            proof {
                lemma_first_where(rv, has_id(id@), j as int);
            }
            return Some(j);
        }
        j += 1;
    }
    proof {
        lemma_first_where(rv, has_id(id@), j as int);
    }
    None
}

fn opt_eq(a: &Option<String>, b: &Option<String>) -> (r: bool)
    ensures
        r == (opt_view(*a) == opt_view(*b)),
{
    match (a, b) {
        (Some(x), Some(y)) => str_eq(x.as_str(), y.as_str()),
        (None, None) => true,
        _ => false,
    }
}

fn touches_exec(c: &ClaimRec, changed: &Vec<String>) -> (r: bool)
    ensures
        r == touches(c@, views(changed@)),
{
    let mut i: usize = 0;
    while i < c.files.len()
        invariant
            i <= c.files@.len(),
            forall|k: int| 0 <= k < i ==> !views(changed@).contains(#[trigger] views(c.files@)[k]),
        decreases c.files.len() - i,
    {
        let mut g: usize = 0;
        while g < changed.len()
            invariant
                g <= changed@.len(),
                i < c.files@.len(),
                forall|k: int| 0 <= k < g ==> changed@[k]@ != c.files@[i as int]@,
            decreases changed.len() - g,
        {
            if str_eq(changed[g].as_str(), c.files[i].as_str()) {
                proof {
                    assert(views(changed@)[g as int] == views(c.files@)[i as int]);
                    assert(views(changed@).contains(views(c.files@)[i as int]));
                    assert(c@.files[i as int] == views(c.files@)[i as int]);
                }
                return true;
            }
            g += 1;
        }
        proof {
            assert forall|k: int| 0 <= k < views(changed@).len() implies views(changed@)[k] != views(c.files@)[i as int] by {
                assert(views(changed@)[k] == changed@[k]@);
            }
        }
        i += 1;
    }
    false
}

/// Adds the events of a commit (see `commit_events_spec`) to the tallies, given the claim
/// state of its first parent (`before`), its own (`after`) and the files it changed.
pub fn commit_events(before: &Vec<HubClaims>, after: &Vec<HubClaims>, changed: &Vec<String>, counts: &mut EventCounts)
    requires
        old(counts).rubber_stamped + claim_count(state_view(after@), after@.len() as int) <= usize::MAX,
        old(counts).restamped + claim_count(state_view(after@), after@.len() as int) <= usize::MAX,
        old(counts).updated_in_place + claim_count(state_view(after@), after@.len() as int) <= usize::MAX,
        old(counts).touched + claim_count(state_view(after@), after@.len() as int) <= usize::MAX,
    ensures
        ({
            let e = commit_events_spec(state_view(before@), state_view(after@), views(changed@), after@.len() as int);
            &&& final(counts).rubber_stamped == old(counts).rubber_stamped + e.rubber_stamped
            &&& final(counts).restamped == old(counts).restamped + e.restamped
            &&& final(counts).updated_in_place == old(counts).updated_in_place + e.updated_in_place
            &&& final(counts).touched == old(counts).touched + e.touched
        }),
{
    let ghost bv = state_view(before@);
    let ghost av = state_view(after@);
    let ghost cv = views(changed@);
    let ghost c0 = (counts.rubber_stamped as nat, counts.restamped as nat, counts.updated_in_place as nat, counts.touched as nat);
    let ghost total = claim_count(av, av.len() as int);
    let mut h: usize = 0;
    while h < after.len()
        invariant
            h <= after@.len(),
            bv == state_view(before@),
            av == state_view(after@),
            cv == views(changed@),
            total == claim_count(av, av.len() as int),
            claim_count(av, h as int) <= total,
            c0.0 + total <= usize::MAX,
            c0.1 + total <= usize::MAX,
            c0.2 + total <= usize::MAX,
            c0.3 + total <= usize::MAX,
            ({
                let e = commit_events_spec(bv, av, cv, h as int);
                &&& counts.rubber_stamped == c0.0 + e.rubber_stamped
                &&& counts.restamped == c0.1 + e.restamped
                &&& counts.updated_in_place == c0.2 + e.updated_in_place
                &&& counts.touched == c0.3 + e.touched
                &&& e.rubber_stamped <= claim_count(av, h as int)
                &&& e.restamped <= claim_count(av, h as int)
                &&& e.updated_in_place <= claim_count(av, h as int)
                &&& e.touched <= claim_count(av, h as int)
            }),
        decreases after.len() - h,
    {
        let hub = &after[h];
        let ghost hm = av[h as int];
        proof {
            assert(hm == hub@);
            lemma_claim_count_mono(av, h + 1, av.len() as int);
        }
        let prev_hub = find_hub(before, &hub.hub);
        let ghost e0 = commit_events_spec(bv, av, cv, h as int);
        let mut k: usize = 0;
        while k < hub.claims.len()
            invariant
                k <= hub.claims@.len(),
                hm == hub@,
                hm.claims.len() == hub.claims@.len(),
                bv == state_view(before@),
                cv == views(changed@),
                e0.rubber_stamped + hm.claims.len() <= claim_count(av, h + 1),
                claim_count(av, h + 1) == claim_count(av, h as int) + hm.claims.len(),
                c0.0 + claim_count(av, h + 1) <= usize::MAX,
                c0.1 + claim_count(av, h + 1) <= usize::MAX,
                c0.2 + claim_count(av, h + 1) <= usize::MAX,
                c0.3 + claim_count(av, h + 1) <= usize::MAX,
                e0.rubber_stamped <= claim_count(av, h as int),
                e0.restamped <= claim_count(av, h as int),
                e0.updated_in_place <= claim_count(av, h as int),
                e0.touched <= claim_count(av, h as int),
                match prev_hub {
                    Some(i) => first_where(bv, has_hub(hm.hub)) == Some(i as int) && i < before@.len(),
                    None => first_where(bv, has_hub(hm.hub)) is None,
                },
                ({
                    let e = events_add(e0, hub_events(bv, hm, cv, k as int));
                    &&& counts.rubber_stamped == c0.0 + e.rubber_stamped
                    &&& counts.restamped == c0.1 + e.restamped
                    &&& counts.updated_in_place == c0.2 + e.updated_in_place
                    &&& counts.touched == c0.3 + e.touched
                    &&& hub_events(bv, hm, cv, k as int).rubber_stamped <= k
                    &&& hub_events(bv, hm, cv, k as int).restamped <= k
                    &&& hub_events(bv, hm, cv, k as int).updated_in_place <= k
                    &&& hub_events(bv, hm, cv, k as int).touched <= k
                }),
            decreases hub.claims.len() - k,
        {
            let c = &hub.claims[k];
            proof {
                assert(hm.claims[k as int] == c@);
            }
            let prev: Option<&ClaimRec> = match prev_hub {
                None => None,
                Some(i) => match find_claim(&before[i].claims, &c.id) {
                    None => None,
                    Some(j) => Some(&before[i].claims[j]),
                },
            };
            let ghost pm = match prev {
                Some(p) => Some(p@),
                None => None::<RecModel>,
            };
            proof {
                match prev_hub {
                    Some(i) => {
                        assert(bv[i as int] == before@[i as int]@);
                    },
                    None => {},
                }
                assert(pm == prev_claim(bv, hm.hub, c@.id));
            }
            let restamp = match (prev, &c.hash) {
                (Some(p), Some(new_hash)) => match &p.hash {
                    Some(old_hash) => !str_eq(old_hash.as_str(), new_hash.as_str()),
                    None => false,
                },
                _ => false,
            };
            let rubber = restamp && match prev {
                Some(p) => str_eq(p.prose.as_str(), c.prose.as_str()),
                None => false,
            };
            let touched = touches_exec(c, changed);
            let updated = touched && match prev {
                Some(p) => !opt_eq(&p.hash, &c.hash),
                None => c.hash.is_some(),
            };
            if rubber {
                counts.rubber_stamped = counts.rubber_stamped + 1;
            }
            if restamp {
                counts.restamped = counts.restamped + 1;
            }
            if updated {
                counts.updated_in_place = counts.updated_in_place + 1;
            }
            if touched {
                counts.touched = counts.touched + 1;
            }
            k += 1;
        }
        h += 1;
    }
}

pub proof fn lemma_claim_count_mono(s: Seq<HubModel>, i: int, j: int)
    requires
        0 <= i <= j <= s.len(),
    ensures
        claim_count(s, i) <= claim_count(s, j),
    decreases j - i,
{
    if i < j {
        lemma_claim_count_mono(s, i, j - 1);
    }
}

/// The hubs of a state are distinct.
pub open spec fn distinct_hubs(s: Seq<HubModel>) -> bool {
    forall|a: int, b: int| 0 <= a < b < s.len() ==> (#[trigger] s[a]).hub != (#[trigger] s[b]).hub
}

/// A state as a map from hub path to its claims.
pub open spec fn state_map(s: Seq<HubModel>) -> Map<Seq<char>, Seq<RecModel>> {
    Map::new(
        |h: Seq<char>| exists|i: int| 0 <= i < s.len() && (#[trigger] s[i]).hub == h,
        |h: Seq<char>| s[first_where(s, has_hub(h)).unwrap()].claims,
    )
}

/// A commit's change to one hub file: its new claims, or `None` when the hub was deleted or
/// cannot be read or parsed at that commit (it then drops out of the state).
pub struct HubChange {
    pub hub: String,
    pub claims: Option<Vec<ClaimRec>>,
}

pub open spec fn change_view(c: HubChange) -> (Seq<char>, Option<Seq<RecModel>>) {
    (c.hub@, match c.claims {
        Some(v) => Some(recs_view(v@)),
        None => None,
    })
}

/// The state after the first `k` changes.
pub open spec fn apply_changes_spec(m: Map<Seq<char>, Seq<RecModel>>, cs: Seq<(Seq<char>, Option<Seq<RecModel>>)>, k: int) -> Map<Seq<char>, Seq<RecModel>>
    decreases k,
{
    if k <= 0 {
        m
    } else {
        let prev = apply_changes_spec(m, cs, k - 1);
        match cs[k - 1].1 {
            Some(claims) => prev.insert(cs[k - 1].0, claims),
            None => prev.remove(cs[k - 1].0),
        }
    }
}

/// A state with one change applied: the hub's entry, if any, taken out, and the hub appended
/// with its new claims when it has any.
pub open spec fn apply_change_seq(s: Seq<HubModel>, c: (Seq<char>, Option<Seq<RecModel>>)) -> Seq<HubModel> {
    let base = match first_where(s, has_hub(c.0)) {
        Some(i) => s.remove(i),
        None => s,
    };
    match c.1 {
        Some(claims) => base.push(HubModel { hub: c.0, claims }),
        None => base,
    }
}

/// The state after the first `k` changes, entry by entry.
pub open spec fn apply_changes_seq(s: Seq<HubModel>, cs: Seq<(Seq<char>, Option<Seq<RecModel>>)>, k: int) -> Seq<HubModel>
    decreases k,
{
    if k <= 0 {
        s
    } else {
        apply_change_seq(apply_changes_seq(s, cs, k - 1), cs[k - 1])
    }
}

fn clone_recs(v: &Vec<ClaimRec>) -> (r: Vec<ClaimRec>)
    ensures
        recs_view(r@) == recs_view(v@),
{
    let mut r: Vec<ClaimRec> = Vec::new();
    let mut k: usize = 0;
    while k < v.len()
        invariant
            k <= v@.len(),
            recs_view(r@) == recs_view(v@).take(k as int),
        decreases v.len() - k,
    {
        let c = &v[k];
        let x = ClaimRec {
            hub: c.hub.clone(),
            id: c.id.clone(),
            hash: match &c.hash {
                Some(h) => Some(h.clone()),
                None => None,
            },
            prose: c.prose.clone(),
            files: clone_file_list(&c.files),
        };
        proof {
            assert(x@ == c@);
            assert(recs_view(r@.push(x)) =~= recs_view(r@).push(x@));
            assert(recs_view(v@).take(k + 1) =~= recs_view(v@).take(k as int).push(v@[k as int]@));
        }
        r.push(x);
        k += 1;
    }
    proof {
        assert(recs_view(v@).take(k as int) =~= recs_view(v@));
    }
    r
}

fn clone_file_list(v: &Vec<String>) -> (r: Vec<String>)
    ensures
        views(r@) == views(v@),
{
    let mut r: Vec<String> = Vec::new();
    let mut k: usize = 0;
    while k < v.len()
        invariant
            k <= v@.len(),
            views(r@) == views(v@).take(k as int),
        decreases v.len() - k,
    {
        let x = v[k].clone();
        proof {
            assert(views(r@.push(x)) =~= views(r@).push(x@));
            assert(views(v@).take(k + 1) =~= views(v@).take(k as int).push(v@[k as int]@));
        }
        r.push(x);
        k += 1;
    }
    proof {
        assert(views(v@).take(k as int) =~= views(v@));
    }
    r
}

proof fn lemma_first_where_found<A>(s: Seq<A>, p: spec_fn(A) -> bool)
    ensures
        (exists|i: int| 0 <= i < s.len() && p(#[trigger] s[i])) ==> first_where(s, p) is Some,
    decreases s.len(),
{
    if s.len() > 0 {
        lemma_first_where_found(s.drop_first(), p);
        if !p(s[0]) && exists|i: int| 0 <= i < s.len() && p(#[trigger] s[i]) {
            let i = choose|i: int| 0 <= i < s.len() && p(#[trigger] s[i]);
            assert(s.drop_first()[i - 1] == s[i]);
        }
    }
}

/// The claim state of a commit: its first parent's, with each change applied in order.
pub fn apply_hub_changes(parent: &Vec<HubClaims>, changes: &Vec<HubChange>) -> (r: Vec<HubClaims>)
    requires
        distinct_hubs(state_view(parent@)),
    ensures
        distinct_hubs(state_view(r@)),
        state_view(r@) == apply_changes_seq(
            state_view(parent@),
            changes@.map_values(|c: HubChange| change_view(c)),
            changes@.len() as int,
        ),
        state_map(state_view(r@)) == apply_changes_spec(
            state_map(state_view(parent@)),
            changes@.map_values(|c: HubChange| change_view(c)),
            changes@.len() as int,
        ),
{
    let mut next: Vec<HubClaims> = Vec::new();
    let mut k: usize = 0;
    while k < parent.len()
        invariant
            k <= parent@.len(),
            state_view(next@) == state_view(parent@).take(k as int),
        decreases parent.len() - k,
    {
        let h = HubClaims { hub: parent[k].hub.clone(), claims: clone_recs(&parent[k].claims) };
        proof {
            assert(state_view(next@.push(h)) =~= state_view(next@).push(h@));
            assert(state_view(parent@).take(k + 1) =~= state_view(parent@).take(k as int).push(parent@[k as int]@));
        }
        next.push(h);
        k += 1;
    }
    proof {
        assert(state_view(parent@).take(k as int) =~= state_view(parent@));
    }
    let ghost cs = changes@.map_values(|c: HubChange| change_view(c));
    let mut c: usize = 0;
    while c < changes.len()
        invariant
            c <= changes@.len(),
            cs == changes@.map_values(|c: HubChange| change_view(c)),
            distinct_hubs(state_view(next@)),
            state_view(next@) == apply_changes_seq(state_view(parent@), cs, c as int),
            state_map(state_view(next@)) == apply_changes_spec(state_map(state_view(parent@)), cs, c as int),
        decreases changes.len() - c,
    {
        let ch = &changes[c];
        proof {
            assert(cs[c as int] == change_view(*ch));
        }
        let ghost before = state_view(next@);
        let found = find_hub(&next, &ch.hub);
        match found {
            Some(i) => {
                let _ = next.remove(i);
            },
            None => {},
        }
        let ghost mid = state_view(next@);
        proof {
            crate::syntax::lemma_first_where_bounds(before, has_hub(ch.hub@));
            lemma_first_where_found(before, has_hub(ch.hub@));
            match found {
                Some(i) => {
                    assert(mid =~= before.remove(i as int));
                },
                None => {
                    assert(mid == before);
                },
            }
            assert(distinct_hubs(mid)) by {
                assert forall|a: int, b: int| 0 <= a < b < mid.len() implies (#[trigger] mid[a]).hub != (#[trigger] mid[b]).hub by {
                    match found {
                        Some(i) => {
                            let a2 = if a < i { a } else { a + 1 };
                            let b2 = if b < i { b } else { b + 1 };
                            assert(mid[a] == before[a2]);
                            assert(mid[b] == before[b2]);
                        },
                        None => {},
                    }
                }
            }
            assert(forall|i: int| 0 <= i < mid.len() ==> (#[trigger] mid[i]).hub != ch.hub@) by {
                assert forall|i: int| 0 <= i < mid.len() implies (#[trigger] mid[i]).hub != ch.hub@ by {
                    match found {
                        Some(x) => {
                            let i2 = if i < x { i } else { i + 1 };
                            assert(mid[i] == before[i2]);
                            assert(before[x as int].hub == ch.hub@);
                        },
                        None => {},
                    }
                }
            }
            assert(state_map(mid) =~= state_map(before).remove(ch.hub@)) by {
                assert forall|h: Seq<char>| #[trigger] state_map(mid).contains_key(h) == state_map(before).remove(ch.hub@).contains_key(h) by {
                    if state_map(mid).contains_key(h) {
                        let i = choose|i: int| 0 <= i < mid.len() && (#[trigger] mid[i]).hub == h;
                        match found {
                            Some(x) => {
                                let i2 = if i < x { i } else { i + 1 };
                                assert(mid[i] == before[i2]);
                            },
                            None => {},
                        }
                    }
                    if state_map(before).remove(ch.hub@).contains_key(h) {
                        let i = choose|i: int| 0 <= i < before.len() && (#[trigger] before[i]).hub == h;
                        match found {
                            Some(x) => {
                                if i != x {
                                    let i2 = if i < x { i } else { i - 1 };
                                    assert(mid[i2] == before[i]);
                                }
                            },
                            None => {},
                        }
                    }
                }
                assert forall|h: Seq<char>| #[trigger] state_map(mid).contains_key(h) implies state_map(mid)[h] == state_map(before).remove(ch.hub@)[h] by {
                    lemma_first_where_found(mid, has_hub(h));
                    lemma_first_where_found(before, has_hub(h));
                    crate::syntax::lemma_first_where_bounds(mid, has_hub(h));
                    crate::syntax::lemma_first_where_bounds(before, has_hub(h));
                    let im = first_where(mid, has_hub(h)).unwrap();
                    let ib = first_where(before, has_hub(h)).unwrap();
                    match found {
                        Some(x) => {
                            let i2 = if im < x { im } else { im + 1 };
                            assert(mid[im] == before[i2]);
                            if ib != i2 {
                                assert(before[ib].hub == before[i2].hub);
                            }
                        },
                        None => {},
                    }
                }
            }
        }
        match &ch.claims {
            Some(claims) => {
                let h = HubClaims { hub: ch.hub.clone(), claims: clone_recs(claims) };
                next.push(h);
                proof {
                    let fin = state_view(next@);
                    assert(fin =~= mid.push(h@));
                    assert(distinct_hubs(fin)) by {
                        assert forall|a: int, b: int| 0 <= a < b < fin.len() implies (#[trigger] fin[a]).hub != (#[trigger] fin[b]).hub by {
                            if b == mid.len() {
                                assert(fin[a] == mid[a]);
                            } else {
                                assert(fin[a] == mid[a]);
                                assert(fin[b] == mid[b]);
                            }
                        }
                    }
                    assert(state_map(fin) =~= state_map(mid).insert(ch.hub@, h@.claims)) by {
                        assert forall|x: Seq<char>| #[trigger] state_map(fin).contains_key(x) == state_map(mid).insert(ch.hub@, h@.claims).contains_key(x) by {
                            if state_map(fin).contains_key(x) {
                                let i = choose|i: int| 0 <= i < fin.len() && (#[trigger] fin[i]).hub == x;
                                if i < mid.len() {
                                    assert(fin[i] == mid[i]);
                                }
                            }
                            if state_map(mid).contains_key(x) {
                                let i = choose|i: int| 0 <= i < mid.len() && (#[trigger] mid[i]).hub == x;
                                assert(fin[i] == mid[i]);
                            }
                            if x == ch.hub@ {
                                assert(fin[mid.len() as int].hub == x);
                            }
                        }
                        assert forall|x: Seq<char>| #[trigger] state_map(fin).contains_key(x) implies state_map(fin)[x] == state_map(mid).insert(ch.hub@, h@.claims)[x] by {
                            lemma_first_where_found(fin, has_hub(x));
                            crate::syntax::lemma_first_where_bounds(fin, has_hub(x));
                            let i = first_where(fin, has_hub(x)).unwrap();
                            if x == ch.hub@ {
                                if i < mid.len() {
                                    assert(fin[i] == mid[i]);
                                }
                            } else {
                                lemma_first_where_found(mid, has_hub(x));
                                crate::syntax::lemma_first_where_bounds(mid, has_hub(x));
                                let im = first_where(mid, has_hub(x)).unwrap();
                                assert(fin[im] == mid[im]);
                                if i < mid.len() {
                                    assert(fin[i] == mid[i]);
                                }
                                if i != im {
                                    if i < im {
                                        lemma_first_where(mid, has_hub(x), im);
                                        assert(false);
                                    } else {
                                        lemma_first_where(fin, has_hub(x), i);
                                        assert(!has_hub(x)(fin[im]));
                                    }
                                }
                            }
                        }
                    }
                }
            },
            None => {},
        }
        c += 1;
    }
    next
}

} // verus!
