//! The walk over a history stream: the claim state of every commit, and the tallies of the
//! events of the commits that count.
//!
//! Running version control and reading hubs at past revisions are the caller's. It hands over
//! the stream (each commit before its parents), what reading each hub a commit changed gave,
//! and the claim state of each first parent that lies outside the stream.
//!
//! One commit is one unit of work: merges carry state but are not counted, and a root commit
//! or an empty one has no events.

use vstd::prelude::*;
use crate::check::{glob_valid, glob_match, glob_error, glob_error_text, glob_matches};
use crate::git::{CommitRec, CommitModel, commits_view};
use crate::hub::{Claim, ClaimModel};
use crate::stats::{
    ClaimRec, HubClaims, HubModel, HubChange, RecModel, EventCounts, Events, claim_rec, recs_view, state_view,
    change_view, distinct_hubs, apply_changes_seq, apply_hub_changes, hub_claim_recs, commit_events,
    commit_events_spec, claim_count, events_add, no_events, hub_events, claim_events, lemma_claim_count_mono,
};
use crate::syntax::lemma_first_where_bounds;
use crate::text::{views, first_where, lemma_first_where, str_eq};

verus! {

broadcast use vstd::std_specs::vec::group_vec_axioms, vstd::seq::group_seq_axioms;

/// A path is a hub file when a hub glob that compiles matches it.
pub open spec fn is_hub(globs: Seq<Seq<char>>, path: Seq<char>) -> bool {
    exists|g: int| 0 <= g < globs.len() && glob_valid(#[trigger] globs[g]) && glob_match(globs[g], path)
}

/// Whether `path` is a hub file (see `is_hub`).
pub fn is_hub_path(globs: &Vec<String>, path: &str) -> (b: bool)
    ensures
        b == is_hub(views(globs@), path@),
{
    let ghost gv = views(globs@);
    let mut g: usize = 0;
    while g < globs.len()
        invariant
            g <= globs@.len(),
            gv == views(globs@),
            forall|k: int| 0 <= k < g ==> !(glob_valid(#[trigger] gv[k]) && glob_match(gv[k], path@)),
        decreases globs.len() - g,
    {
        proof {
            assert(gv[g as int] == globs@[g as int]@);
        }
        if glob_error(globs[g].as_str()).is_none() {
            if glob_matches(globs[g].as_str(), path) {
                return true;
            }
        }
        g += 1;
    }
    false
}

/// The hub files among the first `k` changes of a commit, in order, each with whether it is
/// to be read at that commit (it was not deleted).
pub open spec fn hub_reads_spec(globs: Seq<Seq<char>>, changes: Seq<(char, Seq<char>)>, k: int) -> Seq<(Seq<char>, bool)>
    decreases k,
{
    if k <= 0 {
        Seq::empty()
    } else {
        hub_reads_spec(globs, changes, k - 1) + if is_hub(globs, changes[k - 1].1) {
            seq![(changes[k - 1].1, changes[k - 1].0 != 'D')]
        } else {
            Seq::empty()
        }
    }
}

/// The hub reads of a commit.
pub open spec fn commit_reads(globs: Seq<Seq<char>>, c: CommitModel) -> Seq<(Seq<char>, bool)> {
    hub_reads_spec(globs, c.changes, c.changes.len() as int)
}

pub open spec fn reads_view(v: Seq<(String, bool)>) -> Seq<(Seq<char>, bool)> {
    v.map_values(|r: (String, bool)| (r.0@, r.1))
}

/// The hub files a commit changed, each with whether it must be read at that commit.
pub fn commit_hub_reads(rec: &CommitRec, globs: &Vec<String>) -> (r: Vec<(String, bool)>)
    ensures
        reads_view(r@) == commit_reads(views(globs@), rec@),
{
    let ghost cm = rec@;
    let mut out: Vec<(String, bool)> = Vec::new();
    let mut k: usize = 0;
    while k < rec.changes.len()
        invariant
            k <= rec.changes@.len(),
            cm == rec@,
            cm.changes.len() == rec.changes@.len(),
            reads_view(out@) == hub_reads_spec(views(globs@), cm.changes, k as int),
        decreases rec.changes.len() - k,
    {
        let status = rec.changes[k].0;
        let path = &rec.changes[k].1;
        proof {
            assert(cm.changes[k as int] == (status, path@));
        }
        if is_hub_path(globs, path.as_str()) {
            let item = (path.clone(), status != 'D');
            proof {
                assert(reads_view(out@.push(item)) =~= reads_view(out@) + seq![(path@, status != 'D')]);
            }
            out.push(item);
        } else {
            proof {
                assert(reads_view(out@) + Seq::<(Seq<char>, bool)>::empty() =~= reads_view(out@));
            }
        }
        k += 1;
    }
    out
}

pub open spec fn has_sha(sha: Seq<char>) -> spec_fn(CommitModel) -> bool {
    |c: CommitModel| c.sha == sha
}

/// A first parent outside the stream: the first parent of some commit that no later commit of
/// the stream (an ancestor-side one) carries.
pub open spec fn is_boundary_parent(commits: Seq<CommitModel>, p: Seq<char>) -> bool {
    exists|i: int|
        0 <= i < commits.len() && (#[trigger] commits[i]).parents.len() > 0 && commits[i].parents[0] == p
            && first_where(commits.skip(i + 1), has_sha(p)) is None
}

/// The first position at or after `from` of the commit `sha`.
fn find_sha_from(commits: &Vec<CommitRec>, sha: &str, from: usize) -> (r: Option<usize>)
    requires
        from <= commits@.len(),
    ensures
        match r {
            Some(j) => from <= j < commits@.len() && first_where(commits_view(commits@).skip(from as int), has_sha(sha@))
                == Some(j - from),
            None => first_where(commits_view(commits@).skip(from as int), has_sha(sha@)) is None,
        },
{
    let ghost s = commits_view(commits@).skip(from as int);
    let mut j = from;
    while j < commits.len()
        invariant
            from <= j <= commits@.len(),
            s == commits_view(commits@).skip(from as int),
            forall|k: int| 0 <= k < j - from ==> !has_sha(sha@)(#[trigger] s[k]),
        decreases commits.len() - j,
    {
        proof {
            assert(s[j - from] == commits@[j as int]@);
        }
        if str_eq(commits[j].sha.as_str(), sha) {
            proof {
                lemma_first_where(s, has_sha(sha@), j - from);
            }
            return Some(j);
        }
        j += 1;
    }
    proof {
        lemma_first_where(s, has_sha(sha@), j - from);
    }
    None
}

/// Commit `k` has first parent `p`, and no later commit of the stream carries `p`.
pub open spec fn boundary_at(commits: Seq<CommitModel>, k: int, p: Seq<char>) -> bool {
    commits[k].parents.len() > 0 && commits[k].parents[0] == p && first_where(commits.skip(k + 1), has_sha(p)) is None
}

pub open spec fn boundary_upto(commits: Seq<CommitModel>, i: int, p: Seq<char>) -> bool {
    exists|k: int| 0 <= k < i && #[trigger] boundary_at(commits, k, p)
}

proof fn lemma_boundary_step(commits: Seq<CommitModel>, i: int, p: Seq<char>)
    requires
        0 <= i,
    ensures
        boundary_upto(commits, i + 1, p) == (boundary_upto(commits, i, p) || boundary_at(commits, i, p)),
{
    if boundary_upto(commits, i + 1, p) {
        let k = choose|k: int| 0 <= k < i + 1 && #[trigger] boundary_at(commits, k, p);
        if k < i {
            assert(boundary_upto(commits, i, p));
        }
    }
    if boundary_upto(commits, i, p) {
        let k = choose|k: int| 0 <= k < i && #[trigger] boundary_at(commits, k, p);
        assert(boundary_upto(commits, i + 1, p));
    }
}

/// The first parents outside the stream, each once: the commits whose claim state the caller
/// reads in full.
pub fn boundary_parents(commits: &Vec<CommitRec>) -> (r: Vec<String>)
    ensures
        forall|p: Seq<char>| #[trigger] views(r@).contains(p) <==> is_boundary_parent(commits_view(commits@), p),
        forall|a: int, b: int| 0 <= a < b < r@.len() ==> (#[trigger] r@[a])@ != (#[trigger] r@[b])@,
{
    let ghost cv = commits_view(commits@);
    let mut out: Vec<String> = Vec::new();
    let mut i: usize = 0;
    while i < commits.len()
        invariant
            i <= commits@.len(),
            cv == commits_view(commits@),
            forall|p: Seq<char>| #[trigger] views(out@).contains(p) <==> boundary_upto(cv, i as int, p),
            forall|a: int, b: int| 0 <= a < b < out@.len() ==> (#[trigger] out@[a])@ != (#[trigger] out@[b])@,
        decreases commits.len() - i,
    {
        let ghost before = views(out@);
        proof {
            assert(cv[i as int] == commits@[i as int]@);
        }
        let mut hit: Option<&String> = None;
        if commits[i].parents.len() > 0 {
            let p = &commits[i].parents[0];
            proof {
                assert(cv[i as int].parents[0] == p@);
            }
            if find_sha_from(commits, p.as_str(), i + 1).is_none() {
                hit = Some(p);
            }
        }
        proof {
            assert forall|q: Seq<char>| boundary_at(cv, i as int, q) <==> (hit matches Some(p) && p@ == q) by {}
        }
        match hit {
            None => {
                assert(views(out@) == before);
            },
            Some(p) => {
                let mut seen = false;
                let mut k: usize = 0;
                while k < out.len()
                    invariant
                        k <= out@.len(),
                        seen == exists|m: int| 0 <= m < k && (#[trigger] out@[m])@ == p@,
                    decreases out.len() - k,
                {
                    if str_eq(out[k].as_str(), p.as_str()) {
                        seen = true;
                    }
                    k += 1;
                }
                proof {
                    if seen {
                        let m = choose|m: int| 0 <= m < k && (#[trigger] out@[m])@ == p@;
                        assert(views(out@)[m] == p@);
                    } else {
                        assert forall|m: int| 0 <= m < views(out@).len() implies views(out@)[m] != p@ by {
                            assert(views(out@)[m] == out@[m]@);
                        }
                    }
                }
                if !seen {
                    out.push(p.clone());
                    proof {
                        assert(views(out@) =~= before.push(p@));
                        assert forall|q: Seq<char>| #[trigger] views(out@).contains(q) <==> (before.contains(q) || p@ == q) by {
                            if views(out@).contains(q) {
                                let m = choose|m: int| 0 <= m < views(out@).len() && views(out@)[m] == q;
                                if m < before.len() {
                                    assert(before[m] == q);
                                }
                            }
                            if before.contains(q) {
                                let m = choose|m: int| 0 <= m < before.len() && before[m] == q;
                                assert(views(out@)[m] == q);
                            }
                            if p@ == q {
                                assert(views(out@)[before.len() as int] == q);
                            }
                        }
                    }
                } else {
                    assert(views(out@) == before);
                    assert(before.contains(p@));
                }
            },
        }
        proof {
            assert forall|q: Seq<char>| #[trigger] views(out@).contains(q) <==> (before.contains(q) || (hit matches Some(p) && p@ == q)) by {}
        }
        proof {
            assert forall|q: Seq<char>| #[trigger] views(out@).contains(q) <==> boundary_upto(cv, i + 1, q) by {
                lemma_boundary_step(cv, i as int, q);
            }
        }
        i += 1;
    }
    proof {
        assert forall|q: Seq<char>| boundary_upto(cv, cv.len() as int, q) <==> is_boundary_parent(cv, q) by {
            if boundary_upto(cv, cv.len() as int, q) {
                let k = choose|k: int| 0 <= k < cv.len() && #[trigger] boundary_at(cv, k, q);
                assert(cv[k].parents.len() > 0);
            }
            if is_boundary_parent(cv, q) {
                let k = choose|k: int|
                    0 <= k < cv.len() && (#[trigger] cv[k]).parents.len() > 0 && cv[k].parents[0] == q
                        && first_where(cv.skip(k + 1), has_sha(q)) is None;
                assert(boundary_at(cv, k, q));
            }
        }
    }
    out
}

pub open spec fn claims_view(v: Seq<Claim>) -> Seq<ClaimModel> {
    v.map_values(|c: Claim| c@)
}

pub open spec fn read_view(o: Option<Vec<Claim>>) -> Option<Seq<ClaimModel>> {
    match o {
        Some(v) => Some(claims_view(v@)),
        None => None,
    }
}

/// What the walk is given.
pub struct History {
    /// The stream, each commit before its parents.
    pub commits: Vec<CommitRec>,
    /// For each commit, what each of its hub reads (see `commit_hub_reads`) gave, in order: the
    /// hub's claims, or `None` when it could not be read or parsed at that commit.
    pub reads: Vec<Vec<Option<Vec<Claim>>>>,
    /// The claim state of first parents outside the stream: the commit id, and the claims of
    /// each hub file that could be read and parsed at that commit.
    pub boundary: Vec<(String, Vec<(String, Vec<Claim>)>)>,
}

pub struct HistoryModel {
    pub commits: Seq<CommitModel>,
    pub reads: Seq<Seq<Option<Seq<ClaimModel>>>>,
    pub boundary: Seq<(Seq<char>, Seq<(Seq<char>, Seq<ClaimModel>)>)>,
}

impl View for History {
    type V = HistoryModel;

    open spec fn view(&self) -> HistoryModel {
        HistoryModel {
            commits: commits_view(self.commits@),
            reads: self.reads@.map_values(|r: Vec<Option<Vec<Claim>>>| r@.map_values(|o: Option<Vec<Claim>>| read_view(o))),
            boundary: self.boundary@.map_values(
                |b: (String, Vec<(String, Vec<Claim>)>)| (b.0@, b.1@.map_values(|x: (String, Vec<Claim>)| (x.0@, claims_view(x.1@)))),
            ),
        }
    }
}

/// The records of the claims of `hub`.
pub open spec fn recs_of(hub: Seq<char>, cs: Seq<ClaimModel>) -> Seq<RecModel> {
    cs.map_values(|c: ClaimModel| claim_rec(hub, c))
}

/// The changes a commit makes to the claim state: each hub read, with the claims read (a hub
/// that was deleted, or could not be read, drops out).
pub open spec fn commit_changes(reads: Seq<(Seq<char>, bool)>, got: Seq<Option<Seq<ClaimModel>>>) -> Seq<(Seq<char>, Option<Seq<RecModel>>)> {
    Seq::new(
        reads.len(),
        |k: int|
            (reads[k].0, if reads[k].1 && k < got.len() {
                match got[k] {
                    Some(cs) => Some(recs_of(reads[k].0, cs)),
                    None => None,
                }
            } else {
                None
            }),
    )
}

/// The claim state read in full at a commit outside the stream.
pub open spec fn boundary_state(hubs: Seq<(Seq<char>, Seq<ClaimModel>)>) -> Seq<HubModel> {
    apply_changes_seq(
        Seq::empty(),
        hubs.map_values(|x: (Seq<char>, Seq<ClaimModel>)| (x.0, Some(recs_of(x.0, x.1)))),
        hubs.len() as int,
    )
}

pub open spec fn bd_has(p: Seq<char>) -> spec_fn((Seq<char>, Seq<(Seq<char>, Seq<ClaimModel>)>)) -> bool {
    |b: (Seq<char>, Seq<(Seq<char>, Seq<ClaimModel>)>)| b.0 == p
}

/// The state of a first parent outside the stream: the first one given for it, else none.
pub open spec fn boundary_lookup(bd: Seq<(Seq<char>, Seq<(Seq<char>, Seq<ClaimModel>)>)>, p: Seq<char>) -> Seq<HubModel> {
    match first_where(bd, bd_has(p)) {
        Some(k) => boundary_state(bd[k].1),
        None => Seq::empty(),
    }
}

pub open spec fn got_at(h: HistoryModel, i: int) -> Seq<Option<Seq<ClaimModel>>> {
    if 0 <= i < h.reads.len() {
        h.reads[i]
    } else {
        Seq::empty()
    }
}

/// The claim state of commit `i`: its first parent's (the nearest later commit of the stream
/// with that id; else the state given for it; none for a root commit), with the commit's hub
/// changes applied.
pub open spec fn state_spec(h: HistoryModel, globs: Seq<Seq<char>>, i: int) -> Seq<HubModel>
    decreases h.commits.len() - i,
{
    if 0 <= i < h.commits.len() {
        let c = h.commits[i];
        let parent = if c.parents.len() == 0 {
            Seq::empty()
        } else {
            match first_where(h.commits.skip(i + 1), has_sha(c.parents[0])) {
                Some(j) => {
                    proof {
                        lemma_first_where_bounds(h.commits.skip(i + 1), has_sha(c.parents[0]));
                    }
                    state_spec(h, globs, i + 1 + j)
                },
                None => boundary_lookup(h.boundary, c.parents[0]),
            }
        };
        let cs = commit_changes(commit_reads(globs, c), got_at(h, i));
        apply_changes_seq(parent, cs, cs.len() as int)
    } else {
        Seq::empty()
    }
}

pub open spec fn changes_view(v: Seq<HubChange>) -> Seq<(Seq<char>, Option<Seq<RecModel>>)> {
    v.map_values(|c: HubChange| change_view(c))
}

proof fn lemma_recs_of(hub: Seq<char>, cs: Seq<Claim>)
    ensures
        cs.map_values(|c: Claim| claim_rec(hub, c@)) == recs_of(hub, claims_view(cs)),
{
    assert(cs.map_values(|c: Claim| claim_rec(hub, c@)) =~= recs_of(hub, claims_view(cs)));
}

/// The changes commit `rec` makes, given what its hub reads gave.
fn commit_changes_exec(rec: &CommitRec, globs: &Vec<String>, got: &Vec<Option<Vec<Claim>>>) -> (r: Vec<HubChange>)
    ensures
        changes_view(r@) == commit_changes(
            commit_reads(views(globs@), rec@),
            got@.map_values(|o: Option<Vec<Claim>>| read_view(o)),
        ),
{
    let reads = commit_hub_reads(rec, globs);
    let ghost rv = reads_view(reads@);
    let ghost gv = got@.map_values(|o: Option<Vec<Claim>>| read_view(o));
    let ghost target = commit_changes(rv, gv);
    let mut out: Vec<HubChange> = Vec::new();
    let mut k: usize = 0;
    while k < reads.len()
        invariant
            k <= reads@.len(),
            rv == reads_view(reads@),
            gv == got@.map_values(|o: Option<Vec<Claim>>| read_view(o)),
            target == commit_changes(rv, gv),
            changes_view(out@) == target.take(k as int),
        decreases reads.len() - k,
    {
        let hub = &reads[k].0;
        let claims: Option<Vec<ClaimRec>> = if reads[k].1 && k < got.len() {
            match &got[k] {
                Some(cs) => {
                    proof {
                        lemma_recs_of(hub@, cs@);
                    }
                    Some(hub_claim_recs(hub.as_str(), cs))
                },
                None => None,
            }
        } else {
            None
        };
        let ch = HubChange { hub: hub.clone(), claims };
        proof {
            assert(rv[k as int] == (hub@, reads@[k as int].1));
            if k < got@.len() {
                assert(gv[k as int] == read_view(got@[k as int]));
            }
            assert(change_view(ch) == target[k as int]);
            assert(changes_view(out@.push(ch)) =~= changes_view(out@).push(change_view(ch)));
            assert(target.take(k + 1) =~= target.take(k as int).push(target[k as int]));
        }
        out.push(ch);
        k += 1;
    }
    proof {
        assert(target.take(k as int) =~= target);
    }
    out
}

/// The claim state read in full at a commit outside the stream.
fn boundary_state_exec(hubs: &Vec<(String, Vec<Claim>)>) -> (r: Vec<HubClaims>)
    ensures
        distinct_hubs(state_view(r@)),
        state_view(r@) == boundary_state(hubs@.map_values(|x: (String, Vec<Claim>)| (x.0@, claims_view(x.1@)))),
{
    let ghost hv = hubs@.map_values(|x: (String, Vec<Claim>)| (x.0@, claims_view(x.1@)));
    let ghost target = hv.map_values(|x: (Seq<char>, Seq<ClaimModel>)| (x.0, Some(recs_of(x.0, x.1))));
    let mut changes: Vec<HubChange> = Vec::new();
    let mut k: usize = 0;
    while k < hubs.len()
        invariant
            k <= hubs@.len(),
            hv == hubs@.map_values(|x: (String, Vec<Claim>)| (x.0@, claims_view(x.1@))),
            target == hv.map_values(|x: (Seq<char>, Seq<ClaimModel>)| (x.0, Some(recs_of(x.0, x.1)))),
            changes_view(changes@) == target.take(k as int),
        decreases hubs.len() - k,
    {
        let hub = &hubs[k].0;
        proof {
            lemma_recs_of(hub@, hubs@[k as int].1@);
        }
        let ch = HubChange { hub: hub.clone(), claims: Some(hub_claim_recs(hub.as_str(), &hubs[k].1)) };
        proof {
            assert(change_view(ch) == target[k as int]);
            assert(changes_view(changes@.push(ch)) =~= changes_view(changes@).push(change_view(ch)));
            assert(target.take(k + 1) =~= target.take(k as int).push(target[k as int]));
        }
        changes.push(ch);
        k += 1;
    }
    proof {
        assert(target.take(k as int) =~= target);
    }
    let empty: Vec<HubClaims> = Vec::new();
    proof {
        assert(state_view(empty@) =~= Seq::<HubModel>::empty());
    }
    apply_hub_changes(&empty, &changes)
}

/// The position of the first state given for a commit outside the stream.
fn find_boundary(bd: &Vec<(String, Vec<(String, Vec<Claim>)>)>, p: &str) -> (r: Option<usize>)
    ensures
        match r {
            Some(k) => k < bd@.len() && first_where(
                bd@.map_values(
                    |b: (String, Vec<(String, Vec<Claim>)>)| (b.0@, b.1@.map_values(|x: (String, Vec<Claim>)| (x.0@, claims_view(x.1@)))),
                ),
                bd_has(p@),
            ) == Some(k as int),
            None => first_where(
                bd@.map_values(
                    |b: (String, Vec<(String, Vec<Claim>)>)| (b.0@, b.1@.map_values(|x: (String, Vec<Claim>)| (x.0@, claims_view(x.1@)))),
                ),
                bd_has(p@),
            ) is None,
        },
{
    let ghost v = bd@.map_values(
        |b: (String, Vec<(String, Vec<Claim>)>)| (b.0@, b.1@.map_values(|x: (String, Vec<Claim>)| (x.0@, claims_view(x.1@)))),
    );
    let mut k: usize = 0;
    while k < bd.len()
        invariant
            k <= bd@.len(),
            v.len() == bd@.len(),
            v == bd@.map_values(
                |b: (String, Vec<(String, Vec<Claim>)>)| (b.0@, b.1@.map_values(|x: (String, Vec<Claim>)| (x.0@, claims_view(x.1@)))),
            ),
            forall|m: int| 0 <= m < k ==> !bd_has(p@)(#[trigger] v[m]),
        decreases bd.len() - k,
    {
        proof {
            assert(v[k as int].0 == bd@[k as int].0@);
        }
        if str_eq(bd[k].0.as_str(), p) {
            proof {
                lemma_first_where(v, bd_has(p@), k as int);
            }
            return Some(k);
        }
        k += 1;
    }
    proof {
        lemma_first_where(v, bd_has(p@), k as int);
    }
    None
}

/// The states the walk keeps: slot 0 holds the empty state and slot `1 + k` the state given
/// for the `k`-th commit outside the stream; every slot has distinct hubs.
pub open spec fn pool_wf(pool: Seq<Vec<HubClaims>>, h: HistoryModel) -> bool {
    &&& pool.len() >= 1 + h.boundary.len()
    &&& state_view(pool[0]@) == Seq::<HubModel>::empty()
    &&& forall|k: int| 0 <= k < h.boundary.len() ==> state_view((#[trigger] pool[1 + k])@) == boundary_state(h.boundary[k].1)
    &&& forall|s: int| 0 <= s < pool.len() ==> distinct_hubs(state_view((#[trigger] pool[s])@))
}

/// The slot of the state of a first parent outside the stream.
fn boundary_slot(h: &History, p: &str) -> (r: usize)
    ensures
        r <= h.boundary@.len(),
        r == 0 ==> boundary_lookup(h@.boundary, p@) == Seq::<HubModel>::empty(),
        r > 0 ==> boundary_lookup(h@.boundary, p@) == boundary_state(h@.boundary[r - 1].1),
{
    match find_boundary(&h.boundary, p) {
        Some(k) => if k < h.boundary.len() { k + 1 } else { 0 },
        None => 0,
    }
}

/// The slot of commit `i` when slots are listed from the end of the stream.
pub open spec fn slot_at(slots: Seq<usize>, i: int) -> usize {
    slots[slots.len() - 1 - i]
}

/// The claim state of every commit of the stream: a pool of states, and for each commit,
/// counted from the end of the stream, the slot of its state.
#[verifier::rlimit(40)]
fn walk_states(globs: &Vec<String>, h: &History) -> (r: (Vec<Vec<HubClaims>>, Vec<usize>))
    ensures
        pool_wf(r.0@, h@),
        r.1@.len() == h.commits@.len(),
        forall|i: int|
            0 <= i < h.commits@.len() ==> #[trigger] slot_at(r.1@, i) < r.0@.len() && state_view(r.0@[slot_at(r.1@, i) as int]@)
                == state_spec(h@, views(globs@), i),
{
    let ghost hv = h@;
    let ghost gv = views(globs@);
    let mut pool: Vec<Vec<HubClaims>> = Vec::new();
    let empty: Vec<HubClaims> = Vec::new();
    proof {
        assert(state_view(empty@) =~= Seq::<HubModel>::empty());
    }
    pool.push(empty);
    let mut b: usize = 0;
    while b < h.boundary.len()
        invariant
            b <= h.boundary@.len(),
            hv == h@,
            pool@.len() == 1 + b,
            state_view(pool@[0]@) == Seq::<HubModel>::empty(),
            forall|k: int| 0 <= k < b ==> state_view((#[trigger] pool@[1 + k])@) == boundary_state(hv.boundary[k].1),
            forall|s: int| 0 <= s < pool@.len() ==> distinct_hubs(state_view((#[trigger] pool@[s])@)),
        decreases h.boundary.len() - b,
    {
        let st = boundary_state_exec(&h.boundary[b].1);
        proof {
            assert(hv.boundary[b as int].1 == h.boundary@[b as int].1@.map_values(
                |x: (String, Vec<Claim>)| (x.0@, claims_view(x.1@)),
            ));
        }
        pool.push(st);
        b += 1;
    }
    let n = h.commits.len();
    let empty_reads: Vec<Option<Vec<Claim>>> = Vec::new();
    let mut slots: Vec<usize> = Vec::new();
    let mut i = n;
    while i > 0
        invariant
            i <= n == h.commits@.len(),
            hv == h@,
            gv == views(globs@),
            empty_reads@.len() == 0,
            pool_wf(pool@, hv),
            slots@.len() == n - i,
            forall|t: int|
                0 <= t < slots@.len() ==> (#[trigger] slots@[t]) < pool@.len() && state_view(pool@[slots@[t] as int]@)
                    == state_spec(hv, gv, n - 1 - t),
        decreases i,
    {
        let idx = i - 1;
        let rec = &h.commits[idx];
        proof {
            assert(hv.commits[idx as int] == rec@);
        }
        let ps: usize = if rec.parents.len() == 0 {
            0
        } else {
            proof {
                assert(rec@.parents[0] == rec.parents@[0]@);
            }
            match find_sha_from(&h.commits, rec.parents[0].as_str(), idx + 1) {
                Some(j) => {
                    proof {
                        assert(n - 1 - j < slots@.len());
                        assert(hv.commits.skip(idx + 1) == commits_view(h.commits@).skip(idx + 1));
                        let t = n - 1 - j;
                        assert(state_view(pool@[slots@[t] as int]@) == state_spec(hv, gv, n - 1 - t));
                        assert(idx + 1 + (j - (idx + 1)) == j);
                    }
                    slots[n - 1 - j]
                },
                None => {
                    let bs = boundary_slot(h, rec.parents[0].as_str());
                    proof {
                        if bs > 0 {
                            let k = bs - 1;
                            assert(state_view(pool@[1 + k]@) == boundary_state(hv.boundary[k].1));
                        }
                    }
                    bs
                },
            }
        };
        let ghost parent_state = state_view(pool@[ps as int]@);
        proof {
            let c = hv.commits[idx as int];
            let expect = if c.parents.len() == 0 {
                Seq::<HubModel>::empty()
            } else {
                match first_where(hv.commits.skip(idx + 1), has_sha(c.parents[0])) {
                    Some(j) => state_spec(hv, gv, idx + 1 + j),
                    None => boundary_lookup(hv.boundary, c.parents[0]),
                }
            };
            assert(parent_state == expect);
        }
        let got: &Vec<Option<Vec<Claim>>> = if idx < h.reads.len() { &h.reads[idx] } else { &empty_reads };
        proof {
            assert(got@.map_values(|o: Option<Vec<Claim>>| read_view(o)) =~= got_at(hv, idx as int));
        }
        let changes = commit_changes_exec(rec, globs, got);
        let slot: usize = if changes.len() == 0 {
            proof {
                assert(changes_view(changes@).len() == 0);
            }
            ps
        } else {
            let next = apply_hub_changes(&pool[ps], &changes);
            pool.push(next);
            pool.len() - 1
        };
        proof {
            assert(state_view(pool@[slot as int]@) == state_spec(hv, gv, idx as int));
        }
        slots.push(slot);
        i -= 1;
    }
    proof {
        assert forall|i: int| 0 <= i < n implies #[trigger] slot_at(slots@, i) < pool@.len() && state_view(
            pool@[slot_at(slots@, i) as int]@,
        ) == state_spec(hv, gv, i) by {
            let t = n - 1 - i;
            assert(slots@[t] == slot_at(slots@, i));
        }
    }
    (pool, slots)
}

/// The paths a commit changed.
pub open spec fn changed_paths(c: CommitModel) -> Seq<Seq<char>> {
    c.changes.map_values(|x: (char, Seq<char>)| x.1)
}

/// The state before a commit whose first parent is `p`: the state of the first commit of the
/// stream with that id, else the state given for it.
pub open spec fn before_state(h: HistoryModel, globs: Seq<Seq<char>>, p: Seq<char>) -> Seq<HubModel> {
    match first_where(h.commits, has_sha(p)) {
        Some(j) => state_spec(h, globs, j),
        None => boundary_lookup(h.boundary, p),
    }
}

/// The state after commit `i`: that of the first commit of the stream with its id.
pub open spec fn after_state(h: HistoryModel, globs: Seq<Seq<char>>, i: int) -> Seq<HubModel> {
    match first_where(h.commits, has_sha(h.commits[i].sha)) {
        Some(j) => state_spec(h, globs, j),
        None => Seq::empty(),
    }
}

/// A commit whose events count: not a merge, not a root commit, and not empty.
pub open spec fn counted(c: CommitModel) -> bool {
    c.parents.len() == 1 && c.changes.len() > 0
}

/// The events of commit `i`.
pub open spec fn commit_tally(h: HistoryModel, globs: Seq<Seq<char>>, i: int) -> Events {
    let c = h.commits[i];
    if counted(c) {
        let after = after_state(h, globs, i);
        commit_events_spec(before_state(h, globs, c.parents[0]), after, changed_paths(c), after.len() as int)
    } else {
        no_events()
    }
}

/// The events of the first `k` commits.
pub open spec fn tally_events(h: HistoryModel, globs: Seq<Seq<char>>, k: int) -> Events
    decreases k,
{
    if k <= 0 {
        no_events()
    } else {
        events_add(tally_events(h, globs, k - 1), commit_tally(h, globs, k - 1))
    }
}

/// The commits among the first `k` that count as units of work: all but merges.
pub open spec fn tally_commits(h: HistoryModel, k: int) -> nat
    decreases k,
{
    if k <= 0 {
        0
    } else {
        tally_commits(h, k - 1) + if h.commits[k - 1].parents.len() <= 1 { 1nat } else { 0nat }
    }
}

/// The claims the events of the first `k` commits are drawn from: no tally exceeds it.
pub open spec fn tally_bound(h: HistoryModel, globs: Seq<Seq<char>>, k: int) -> nat
    decreases k,
{
    if k <= 0 {
        0
    } else {
        tally_bound(h, globs, k - 1) + if counted(h.commits[k - 1]) {
            let after = after_state(h, globs, k - 1);
            claim_count(after, after.len() as int)
        } else {
            0nat
        }
    }
}

proof fn lemma_tally_bound_mono(h: HistoryModel, globs: Seq<Seq<char>>, i: int, j: int)
    requires
        0 <= i <= j,
    ensures
        tally_bound(h, globs, i) <= tally_bound(h, globs, j),
    decreases j - i,
{
    if i < j {
        lemma_tally_bound_mono(h, globs, i, j - 1);
    }
}

proof fn lemma_hub_events_le(bv: Seq<HubModel>, hm: HubModel, cv: Seq<Seq<char>>, k: int)
    requires
        0 <= k,
    ensures
        hub_events(bv, hm, cv, k).rubber_stamped <= k,
        hub_events(bv, hm, cv, k).restamped <= k,
        hub_events(bv, hm, cv, k).updated_in_place <= k,
        hub_events(bv, hm, cv, k).touched <= k,
    decreases k,
{
    if k > 0 {
        lemma_hub_events_le(bv, hm, cv, k - 1);
    }
}

proof fn lemma_commit_events_le(bv: Seq<HubModel>, av: Seq<HubModel>, cv: Seq<Seq<char>>, k: int)
    requires
        0 <= k <= av.len(),
    ensures
        commit_events_spec(bv, av, cv, k).rubber_stamped <= claim_count(av, k),
        commit_events_spec(bv, av, cv, k).restamped <= claim_count(av, k),
        commit_events_spec(bv, av, cv, k).updated_in_place <= claim_count(av, k),
        commit_events_spec(bv, av, cv, k).touched <= claim_count(av, k),
    decreases k,
{
    if k > 0 {
        lemma_commit_events_le(bv, av, cv, k - 1);
        lemma_hub_events_le(bv, av[k - 1], cv, av[k - 1].claims.len() as int);
    }
}

/// The number of claims in a state, `None` when it does not fit in `usize`.
fn claim_total(s: &Vec<HubClaims>) -> (r: Option<usize>)
    ensures
        match r {
            Some(t) => t == claim_count(state_view(s@), s@.len() as int),
            None => claim_count(state_view(s@), s@.len() as int) > usize::MAX,
        },
{
    let ghost sv = state_view(s@);
    let mut t: usize = 0;
    let mut k: usize = 0;
    while k < s.len()
        invariant
            k <= s@.len(),
            sv == state_view(s@),
            t == claim_count(sv, k as int),
        decreases s.len() - k,
    {
        proof {
            assert(sv[k as int].claims.len() == s@[k as int].claims@.len());
        }
        match t.checked_add(s[k].claims.len()) {
            Some(x) => t = x,
            None => {
                proof {
                    lemma_claim_count_mono(sv, k + 1, sv.len() as int);
                }
                return None;
            },
        }
        k += 1;
    }
    Some(t)
}

fn changed_exec(rec: &CommitRec) -> (r: Vec<String>)
    ensures
        views(r@) == changed_paths(rec@),
{
    let mut out: Vec<String> = Vec::new();
    let mut k: usize = 0;
    while k < rec.changes.len()
        invariant
            k <= rec.changes@.len(),
            views(out@) == changed_paths(rec@).take(k as int),
        decreases rec.changes.len() - k,
    {
        let p = rec.changes[k].1.clone();
        proof {
            assert(views(out@.push(p)) =~= views(out@).push(p@));
            assert(changed_paths(rec@).take(k + 1) =~= changed_paths(rec@).take(k as int).push(changed_paths(rec@)[k as int]));
        }
        out.push(p);
        k += 1;
    }
    proof {
        assert(changed_paths(rec@).take(k as int) =~= changed_paths(rec@));
    }
    out
}

/// The tallies of a history: the commits that count as units of work, and the events.
pub struct Tally {
    pub commits: usize,
    pub events: EventCounts,
}

/// The tallies equal the spec ones over the first `k` commits.
pub open spec fn tally_is(t: Tally, h: HistoryModel, globs: Seq<Seq<char>>, k: int) -> bool {
    let e = tally_events(h, globs, k);
    &&& t.commits == tally_commits(h, k)
    &&& t.events.rubber_stamped == e.rubber_stamped
    &&& t.events.restamped == e.restamped
    &&& t.events.updated_in_place == e.updated_in_place
    &&& t.events.touched == e.touched
}

/// Every hub glob compiles.
pub open spec fn globs_valid(globs: Seq<Seq<char>>) -> bool {
    forall|j: int| 0 <= j < globs.len() ==> glob_valid(#[trigger] globs[j])
}

/// The message for a hub glob that does not compile, given the glob crate's own.
pub open spec fn invalid_glob_message(glob: Seq<char>, why: Seq<char>) -> Seq<char> {
    "invalid hub glob \""@ + glob + "\" in surf.toml: "@ + why
}

/// Checks the hub globs: fails on the first one that does not compile.
pub fn check_hub_globs(globs: &Vec<String>) -> (r: Result<(), String>)
    ensures
        match r {
            Ok(()) => globs_valid(views(globs@)),
            Err(m) => exists|j: int|
                0 <= j < globs@.len() && !glob_valid(#[trigger] globs@[j]@) && (forall|i: int| 0 <= i < j ==> glob_valid(#[trigger] globs@[i]@))
                    && m@ == invalid_glob_message(globs@[j]@, glob_error_text(globs@[j]@)),
        },
{
    let mut g: usize = 0;
    while g < globs.len()
        invariant
            g <= globs@.len(),
            forall|i: int| 0 <= i < g ==> glob_valid(#[trigger] globs@[i]@),
        decreases globs.len() - g,
    {
        match glob_error(globs[g].as_str()) {
            Some(e) => {
                proof {
                    reveal_strlit("invalid hub glob \"");
                    reveal_strlit("\" in surf.toml: ");
                }
                let mut m = "invalid hub glob \"".to_owned();
                m.push_str(globs[g].as_str());
                m.push_str("\" in surf.toml: ");
                m.push_str(e.as_str());
                proof {
                    assert(m@ =~= invalid_glob_message(globs@[g as int]@, e@));
                }
                return Err(m);
            },
            None => {},
        }
        g += 1;
    }
    proof {
        assert forall|j: int| 0 <= j < views(globs@).len() implies glob_valid(#[trigger] views(globs@)[j]) by {
            assert(views(globs@)[j] == globs@[j]@);
        }
    }
    Ok(())
}

/// The tallies of the walk over a history (see `tally_events` and `tally_commits`). Fails
/// first on the first hub glob that does not compile; `Ok(None)` when the tallies could not be
/// held in `usize`.
pub fn stats_tally(globs: &Vec<String>, h: &History) -> (r: Result<Option<Tally>, String>)
    ensures
        match r {
            Err(m) => exists|j: int|
                0 <= j < globs@.len() && !glob_valid(#[trigger] globs@[j]@) && (forall|i: int| 0 <= i < j ==> glob_valid(#[trigger] globs@[i]@))
                    && m@ == invalid_glob_message(globs@[j]@, glob_error_text(globs@[j]@)),
            Ok(o) => globs_valid(views(globs@)) && match o {
                Some(t) => tally_is(t, h@, views(globs@), h@.commits.len() as int),
                None => tally_bound(h@, views(globs@), h@.commits.len() as int) > usize::MAX,
            },
        },
        globs_valid(views(globs@)) && tally_bound(h@, views(globs@), h@.commits.len() as int) <= usize::MAX ==> r matches Ok(Some(_)),
{
    match check_hub_globs(globs) {
        Err(m) => {
            proof {
                let j = choose|j: int|
                    0 <= j < globs@.len() && !glob_valid(#[trigger] globs@[j]@) && (forall|i: int| 0 <= i < j ==> glob_valid(#[trigger] globs@[i]@))
                        && m@ == invalid_glob_message(globs@[j]@, glob_error_text(globs@[j]@));
                assert(views(globs@)[j] == globs@[j]@);
            }
            return Err(m);
        },
        Ok(()) => {},
    }
    let ghost gv = views(globs@);
    let ghost hv = h@;
    proof {
        assert forall|j: int| 0 <= j < gv.len() implies glob_valid(#[trigger] gv[j]) by {
            assert(gv[j] == globs@[j]@);
        }
    }
    let (pool, slots) = walk_states(globs, h);
    let n = h.commits.len();
    let mut counts = EventCounts { rubber_stamped: 0, restamped: 0, updated_in_place: 0, touched: 0 };
    let mut commits: usize = 0;
    let mut bound: usize = 0;
    let mut i: usize = 0;
    proof {
        assert(hv.commits.skip(0) =~= hv.commits);
    }
    while i < n
        invariant
            i <= n == h.commits@.len(),
            hv == h@,
            gv == views(globs@),
            globs_valid(gv),
            hv.commits.skip(0) == hv.commits,
            pool_wf(pool@, hv),
            slots@.len() == n,
            forall|j: int|
                0 <= j < n ==> #[trigger] slot_at(slots@, j) < pool@.len() && state_view(pool@[slot_at(slots@, j) as int]@)
                    == state_spec(hv, gv, j),
            commits <= i,
            tally_is(Tally { commits, events: counts }, hv, gv, i as int),
            bound == tally_bound(hv, gv, i as int),
            counts.rubber_stamped <= bound,
            counts.restamped <= bound,
            counts.updated_in_place <= bound,
            counts.touched <= bound,
        decreases n - i,
    {
        let rec = &h.commits[i];
        proof {
            assert(hv.commits[i as int] == rec@);
        }
        if rec.parents.len() <= 1 {
            commits += 1;
        }
        if rec.parents.len() == 1 && rec.changes.len() > 0 {
            proof {
                assert(rec@.parents[0] == rec.parents@[0]@);
            }
            let bs: usize = match find_sha_from(&h.commits, rec.parents[0].as_str(), 0) {
                Some(j) => {
                    proof {
                        assert(slot_at(slots@, j as int) == slots@[n - 1 - j]);
                    }
                    slots[n - 1 - j]
                },
                None => {
                    let b = boundary_slot(h, rec.parents[0].as_str());
                    proof {
                        if b > 0 {
                            let k = b - 1;
                            assert(state_view(pool@[1 + k]@) == boundary_state(hv.boundary[k].1));
                        }
                    }
                    b
                },
            };
            let as_: usize = match find_sha_from(&h.commits, rec.sha.as_str(), 0) {
                Some(j) => {
                    proof {
                        assert(slot_at(slots@, j as int) == slots@[n - 1 - j]);
                    }
                    slots[n - 1 - j]
                },
                None => 0,
            };
            let ghost before = state_view(pool@[bs as int]@);
            let ghost after = state_view(pool@[as_ as int]@);
            proof {
                assert(before == before_state(hv, gv, rec@.parents[0]));
                assert(after == after_state(hv, gv, i as int));
                lemma_commit_events_le(before, after, changed_paths(rec@), after.len() as int);
            }
            let total = match claim_total(&pool[as_]) {
                Some(t) => t,
                None => {
                    proof {
                        lemma_tally_bound_mono(hv, gv, i + 1, n as int);
                    }
                    return Ok(None);
                },
            };
            let next_bound = match bound.checked_add(total) {
                Some(b) => b,
                None => {
                    proof {
                        lemma_tally_bound_mono(hv, gv, i + 1, n as int);
                    }
                    return Ok(None);
                },
            };
            let changed = changed_exec(rec);
            commit_events(&pool[bs], &pool[as_], &changed, &mut counts);
            bound = next_bound;
        }
        i += 1;
    }
    Ok(Some(Tally { commits, events: counts }))
}

proof fn lemma_hub_events_rates(bv: Seq<HubModel>, hm: HubModel, cv: Seq<Seq<char>>, k: int)
    ensures
        hub_events(bv, hm, cv, k).rubber_stamped <= hub_events(bv, hm, cv, k).restamped,
        hub_events(bv, hm, cv, k).updated_in_place <= hub_events(bv, hm, cv, k).touched,
    decreases k,
{
    if k > 0 {
        lemma_hub_events_rates(bv, hm, cv, k - 1);
    }
}

proof fn lemma_commit_events_rates(bv: Seq<HubModel>, av: Seq<HubModel>, cv: Seq<Seq<char>>, k: int)
    ensures
        commit_events_spec(bv, av, cv, k).rubber_stamped <= commit_events_spec(bv, av, cv, k).restamped,
        commit_events_spec(bv, av, cv, k).updated_in_place <= commit_events_spec(bv, av, cv, k).touched,
    decreases k,
{
    if k > 0 {
        lemma_commit_events_rates(bv, av, cv, k - 1);
        lemma_hub_events_rates(bv, av[k - 1], cv, av[k - 1].claims.len() as int);
    }
}

/// Each rate's numerator is part of its denominator: a rubber stamp is a re-stamp, and an
/// update in place is a touch. Both rates lie between 0 and 1.
pub proof fn lemma_rates_at_most_one(h: HistoryModel, globs: Seq<Seq<char>>, k: int)
    ensures
        tally_events(h, globs, k).rubber_stamped <= tally_events(h, globs, k).restamped,
        tally_events(h, globs, k).updated_in_place <= tally_events(h, globs, k).touched,
    decreases k,
{
    if k > 0 {
        lemma_rates_at_most_one(h, globs, k - 1);
        let c = h.commits[k - 1];
        if counted(c) {
            let after = after_state(h, globs, k - 1);
            lemma_commit_events_rates(before_state(h, globs, c.parents[0]), after, changed_paths(c), after.len() as int);
        }
    }
}

/// A commit that changed no hub file has its first parent's claim state: that of the nearest
/// later commit of the stream with the parent's id.
pub proof fn lemma_untouched_commit_keeps_state(h: HistoryModel, globs: Seq<Seq<char>>, i: int, j: int)
    requires
        0 <= i < j < h.commits.len(),
        commit_reads(globs, h.commits[i]).len() == 0,
        h.commits[i].parents.len() > 0,
        h.commits[j].sha == h.commits[i].parents[0],
        forall|k: int| i < k < j ==> h.commits[k].sha != h.commits[i].parents[0],
    ensures
        state_spec(h, globs, i) == state_spec(h, globs, j),
{
    let s = h.commits.skip(i + 1);
    let p = h.commits[i].parents[0];
    assert forall|k: int| 0 <= k < j - (i + 1) implies !has_sha(p)(#[trigger] s[k]) by {
        assert(s[k] == h.commits[i + 1 + k]);
    }
    assert(s[j - (i + 1)] == h.commits[j]);
    lemma_first_where(s, has_sha(p), j - (i + 1));
}

/// A root commit that changed no hub file has no claims.
pub proof fn lemma_untouched_root_is_empty(h: HistoryModel, globs: Seq<Seq<char>>, i: int)
    requires
        0 <= i < h.commits.len(),
        commit_reads(globs, h.commits[i]).len() == 0,
        h.commits[i].parents.len() == 0,
    ensures
        state_spec(h, globs, i) == Seq::<HubModel>::empty(),
{
}

} // verus!
