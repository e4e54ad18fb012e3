use surf_core::git::{parse_log, renamed_to, CommitRec};
use surf_core::history::{boundary_parents, commit_hub_reads, is_hub_path, stats_tally, History, Tally};
use surf_core::{hash_anchor, parse_anchor, At, Claim, Lang};

const ANCHOR: &str = "src/m.rs > add";
const HUB: &str = "hubs/a.md";

fn globs() -> Vec<String> {
    vec!["hubs/*.md".to_string()]
}

fn rust_hash(src: &str) -> String {
    hash_anchor(src, Lang::Rust, &parse_anchor(ANCHOR).unwrap()).unwrap()
}

fn version(n: u32) -> String {
    format!("pub fn add(a: i64) -> i64 {{ a + {n} }}\n")
}

fn hub_claims(prose: &str, src: &str) -> Vec<Claim> {
    vec![Claim { claim: prose.to_string(), at: At::One(ANCHOR.to_string()), hash: Some(rust_hash(src)), ignore_literals: false }]
}

/// One commit of a test repository: its id, parents, changed paths and the hubs it holds.
struct Commit {
    sha: &'static str,
    parents: Vec<&'static str>,
    changes: Vec<(char, &'static str)>,
    hubs: Vec<(&'static str, Vec<Claim>)>,
}

/// The history as the walk is handed it: `stream` lists commits children first; each hub read
/// gives the claims the commit holds for that hub.
fn history(stream: &[&Commit], boundary: Vec<(String, Vec<(String, Vec<Claim>)>)>) -> History {
    let commits: Vec<CommitRec> = stream
        .iter()
        .map(|c| CommitRec {
            sha: c.sha.to_string(),
            parents: c.parents.iter().map(|p| p.to_string()).collect(),
            changes: c.changes.iter().map(|(s, p)| (*s, p.to_string())).collect(),
        })
        .collect();
    let reads = commits
        .iter()
        .zip(stream.iter())
        .map(|(rec, c)| {
            commit_hub_reads(rec, &globs())
                .into_iter()
                .map(|(path, read)| {
                    if !read {
                        return None;
                    }
                    c.hubs.iter().find(|(h, _)| *h == path).map(|(_, cs)| cs.clone())
                })
                .collect()
        })
        .collect();
    History { commits, reads, boundary }
}

fn tally(h: &History) -> Tally {
    stats_tally(&globs(), h).unwrap().unwrap()
}

fn rates(t: &Tally) -> ((usize, usize), (usize, usize)) {
    ((t.events.rubber_stamped, t.events.restamped), (t.events.updated_in_place, t.events.touched))
}

fn seed() -> Commit {
    Commit {
        sha: "c1",
        parents: vec![],
        changes: vec![('A', "hubs/a.md"), ('A', "src/m.rs"), ('A', "surf.toml")],
        hubs: vec![(HUB, hub_claims("add increments", &version(1)))],
    }
}

fn restamp(sha: &'static str, parent: &'static str, prose: &str, v: u32) -> Commit {
    Commit {
        sha,
        parents: vec![parent],
        changes: vec![('M', "hubs/a.md"), ('M', "src/m.rs")],
        hubs: vec![(HUB, hub_claims(prose, &version(v)))],
    }
}

#[test]
fn invalid_hub_glob_syntax_errors() {
    let h = History { commits: vec![], reads: vec![], boundary: vec![] };
    let err = stats_tally(&vec!["hubs/[.md".to_string()], &h).err().unwrap();
    assert!(err.contains("hubs/["), "got: {err}");
    assert!(err.starts_with("invalid hub glob \"hubs/[.md\" in surf.toml: "));
}

#[test]
fn rubber_stamp_when_hash_changes_but_prose_does_not() {
    let c1 = seed();
    let c2 = restamp("c2", "c1", "add increments", 2);
    let t = tally(&history(&[&c2, &c1], vec![]));
    assert_eq!(rates(&t), ((1, 1), (1, 1)));
    assert_eq!(t.commits, 2);
}

#[test]
fn memoized_before_state_is_correct_across_a_linear_chain() {
    let c1 = seed();
    let c2 = restamp("c2", "c1", "add increments", 2);
    let c3 = restamp("c3", "c2", "add increments", 3);
    let c4 = restamp("c4", "c3", "add increments", 4);
    let t = tally(&history(&[&c4, &c3, &c2, &c1], vec![]));
    assert_eq!(rates(&t), ((3, 3), (3, 3)));
}

#[test]
fn genuine_update_is_not_a_rubber_stamp() {
    let c1 = Commit { hubs: vec![(HUB, hub_claims("add adds one", &version(1)))], ..seed() };
    let c2 = restamp("c2", "c1", "add adds two", 2);
    let t = tally(&history(&[&c2, &c1], vec![]));
    assert_eq!(rates(&t).0, (0, 1));
}

#[test]
fn touching_anchored_code_without_resealing_is_not_in_place() {
    let c1 = seed();
    let c2 = Commit {
        sha: "c2",
        parents: vec!["c1"],
        changes: vec![('M', "src/m.rs")],
        hubs: vec![(HUB, hub_claims("add increments", &version(1)))],
    };
    let t = tally(&history(&[&c2, &c1], vec![]));
    assert_eq!(rates(&t).1, (0, 1));
    assert_eq!(rates(&t).0 .1, 0);
}

#[test]
fn merge_commits_carry_state_but_do_not_count() {
    let c1 = seed();
    let c2 = restamp("c2", "c1", "add increments", 2);
    let c3 = Commit {
        sha: "c3",
        parents: vec!["c1"],
        changes: vec![('A', "other.txt")],
        hubs: vec![(HUB, hub_claims("add increments", &version(1)))],
    };
    // The merge's first-parent diff carries what the branch brought in.
    let c4 = Commit {
        sha: "c4",
        parents: vec!["c3", "c2"],
        changes: vec![('M', "hubs/a.md"), ('M', "src/m.rs")],
        hubs: vec![(HUB, hub_claims("add increments", &version(2)))],
    };
    let c5 = restamp("c5", "c4", "add increments", 3);
    let t = tally(&history(&[&c5, &c4, &c3, &c2, &c1], vec![]));
    assert_eq!(t.commits, 4);
    assert_eq!(rates(&t), ((2, 2), (2, 2)));
}

#[test]
fn since_window_reconstructs_the_out_of_window_parent() {
    let c2 = restamp("c2", "c1", "add increments", 2);
    let h = history(&[&c2], vec![]);
    assert_eq!(boundary_parents(&h.commits), vec!["c1".to_string()]);
    let boundary = vec![("c1".to_string(), vec![(HUB.to_string(), hub_claims("add increments", &version(1)))])];
    let t = tally(&History { boundary, ..h });
    assert_eq!(t.commits, 1);
    assert_eq!(rates(&t), ((1, 1), (1, 1)));
}

#[test]
fn missing_boundary_state_reads_as_new_claims() {
    let c2 = restamp("c2", "c1", "add increments", 2);
    let t = tally(&history(&[&c2], vec![]));
    assert_eq!(rates(&t), ((0, 0), (1, 1)));
}

#[test]
fn deleted_hub_drops_its_claims_from_later_state() {
    let c1 = seed();
    let c2 = Commit { sha: "c2", parents: vec!["c1"], changes: vec![('D', "hubs/a.md")], hubs: vec![] };
    let c3 = Commit { sha: "c3", parents: vec!["c2"], changes: vec![('M', "src/m.rs")], hubs: vec![] };
    let t = tally(&history(&[&c3, &c2, &c1], vec![]));
    assert_eq!(t.commits, 3);
    assert_eq!((t.events.restamped, t.events.touched), (0, 0));
}

#[test]
fn empty_history_tallies_nothing() {
    let t = tally(&History { commits: vec![], reads: vec![], boundary: vec![] });
    assert_eq!(t.commits, 0);
    assert_eq!(rates(&t), ((0, 0), (0, 0)));
}

#[test]
fn hub_reads_skip_other_files_and_deletions() {
    let rec = CommitRec {
        sha: "x".to_string(),
        parents: vec![],
        changes: vec![('M', "src/a.rs".to_string()), ('D', "hubs/b.md".to_string()), ('A', "hubs/c.md".to_string())],
    };
    assert_eq!(commit_hub_reads(&rec, &globs()), vec![("hubs/b.md".to_string(), false), ("hubs/c.md".to_string(), true)]);
    assert!(is_hub_path(&globs(), "hubs/x.md"));
    assert!(!is_hub_path(&globs(), "docs/x.md"));
    assert!(!is_hub_path(&vec!["hubs/[.md".to_string()], "hubs/[.md"));
}

#[test]
fn boundary_parents_are_listed_once() {
    let mk = |sha: &str, parents: &[&str]| CommitRec {
        sha: sha.to_string(),
        parents: parents.iter().map(|p| p.to_string()).collect(),
        changes: vec![],
    };
    let commits = vec![mk("d", &["c"]), mk("c", &["a"]), mk("b", &["a"]), mk("e", &[])];
    assert_eq!(boundary_parents(&commits), vec!["a".to_string()]);
}

#[test]
fn log_stream_parses_headers_and_changes() {
    let text = "\u{1}c2 c1\n\nM\thubs/a.md\nA\tsrc/x y.rs\n\u{1}c1\n\nA\tsurf.toml\n";
    let v = parse_log(text).unwrap();
    assert_eq!(v.len(), 2);
    assert_eq!(v[0].sha, "c2");
    assert_eq!(v[0].parents, vec!["c1".to_string()]);
    assert_eq!(v[0].changes, vec![('M', "hubs/a.md".to_string()), ('A', "src/x y.rs".to_string())]);
    assert!(v[1].parents.is_empty());
    assert_eq!(v[1].changes, vec![('A', "surf.toml".to_string())]);
}

#[test]
fn log_stream_refuses_malformed_text() {
    assert!(parse_log("M\thubs/a.md\n").is_none());
    assert!(parse_log("\u{1}\n").is_none());
    assert!(parse_log("\u{1}c1\n\tx\n").is_none());
    assert_eq!(parse_log("").unwrap().len(), 0);
}

#[test]
fn rename_rows_pair_old_and_new() {
    let text = "M\tsrc/a.rs\nR097\tsrc/old.rs\tsrc/new.rs\n";
    assert_eq!(renamed_to(text, "src/old.rs"), Some("src/new.rs".to_string()));
    assert_eq!(renamed_to(text, "src/a.rs"), None);
}
