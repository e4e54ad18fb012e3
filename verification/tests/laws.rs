use surf_core::check::wants_enrichment;
use surf_core::history::check_hub_globs;
use surf_core::lint::{malformed_hub_finding, Severity};
use surf_core::{hash_anchor, parse_anchor, set_anchor_hash, At, Claim, Divergence, DivergenceKind, HubError, Lang};

const HUB: &str = "---\nsummary: s\nanchors:\n  - claim: one\n    at: a.rs > foo\n    hash: oldhash\n  - claim: two\n    at: a.rs > bar\nrefs: []\n---\nbody\n";

#[test]
fn setting_a_hash_twice_is_setting_it_once() {
    for idx in 0..2 {
        let once = set_anchor_hash(HUB, idx, "h1").unwrap();
        let twice = set_anchor_hash(&once, idx, "h1").unwrap();
        assert_eq!(once, twice);
    }
}

#[test]
fn a_written_hash_reads_back() {
    let out = set_anchor_hash(HUB, 1, "fresh").unwrap();
    assert!(out.contains("    at: a.rs > bar\n    hash: fresh\n"));
    let again = set_anchor_hash(&out, 1, "other").unwrap();
    assert!(again.contains("    hash: other\n"));
    assert!(!again.contains("fresh"));
}

#[test]
fn consistent_rename_keeps_the_fingerprint() {
    let a = "pub fn add(x: i64, y: i64) -> i64 { x + y }\n";
    let b = "pub fn add(first: i64, second: i64) -> i64 { first + second }\n";
    let swapped = "pub fn add(x: i64, y: i64) -> i64 { y + x }\n";
    let anchor = parse_anchor("m.rs > add").unwrap();
    let ha = hash_anchor(a, Lang::Rust, &anchor).unwrap();
    assert_eq!(ha, hash_anchor(b, Lang::Rust, &anchor).unwrap());
    assert_ne!(ha, hash_anchor(swapped, Lang::Rust, &anchor).unwrap());
}

#[test]
fn unreadable_hub_blocks_lint() {
    let f = malformed_hub_finding("hubs/a.md", &HubError::MissingFrontmatter);
    assert_eq!(f.severity, Severity::Block);
    assert_eq!(f.hub, "hubs/a.md");
    assert_eq!(f.claim, "");
    assert_eq!(f.at, "");
    assert_eq!(f.message, "invalid hub: hub must begin with a `---`-fenced YAML frontmatter block");
}

fn divergence(kind: DivergenceKind) -> Divergence {
    Divergence {
        hub: "h".to_string(),
        claim: "c".to_string(),
        at: "a".to_string(),
        kind,
        old_hash: None,
        new_hash: None,
        old_code: None,
        new_code: None,
        prose: "c".to_string(),
        magnitude: None,
        detail: None,
    }
}

#[test]
fn only_changed_single_site_claims_are_enriched() {
    let one = Claim { claim: "c".to_string(), at: At::One("a.rs > f".to_string()), hash: None, ignore_literals: false };
    let two = Claim { at: At::Many(vec!["a.rs > f".to_string(), "a.rs > g".to_string()]), ..one.clone() };
    assert!(wants_enrichment(&one, &divergence(DivergenceKind::Changed)));
    assert!(!wants_enrichment(&one, &divergence(DivergenceKind::Unverified)));
    assert!(!wants_enrichment(&two, &divergence(DivergenceKind::Changed)));
}

#[test]
fn hub_globs_are_checked_in_order() {
    assert!(check_hub_globs(&vec!["hubs/*.md".to_string()]).is_ok());
    let err = check_hub_globs(&vec!["ok/*.md".to_string(), "bad/[".to_string(), "worse/[".to_string()]).unwrap_err();
    assert!(err.starts_with("invalid hub glob \"bad/[\" in surf.toml: Pattern syntax error"), "got: {err}");
}

#[test]
fn fingerprints_are_twelve_hex_digits() {
    let anchor = parse_anchor("m.rs > add").unwrap();
    let h = hash_anchor("pub fn add(x: i64) -> i64 { x }\n", Lang::Rust, &anchor).unwrap();
    assert_eq!(h.len(), 12);
    assert!(h.chars().all(|c| c.is_ascii_digit() || ('a'..='f').contains(&c)));
    let c = surf_core::combine_site_hashes(&vec![h.clone(), h]);
    assert_eq!(c.len(), 12);
}

#[test]
fn rust_symbols_are_its_public_functions() {
    let src = "pub fn b() {}\npub fn a() {}\nfn hidden() {}\npub struct S;\nimpl S { pub fn m(&self) {} }\n";
    let fns: Vec<Vec<String>> = surf_core::public_fns(src, Lang::Rust).into_iter().map(|n| vec![n]).collect();
    assert_eq!(surf_core::public_symbols(src, Lang::Rust, surf_core::Surface::Callables), fns);
    assert_eq!(surf_core::public_symbols(src, Lang::Rust, surf_core::Surface::All), fns);
}

#[test]
fn python_callables_are_among_all_symbols() {
    let src = "X = 1\n\nclass C:\n    y: int = 2\n    def m(self):\n        pass\n\ndef f():\n    pass\n";
    let callables = surf_core::public_symbols(src, Lang::Python, surf_core::Surface::Callables);
    let all = surf_core::public_symbols(src, Lang::Python, surf_core::Surface::All);
    assert!(!callables.is_empty());
    assert!(callables.iter().all(|p| all.contains(p)));
    assert!(all.len() > callables.len());
}

#[test]
fn positional_index_picks_the_kth_candidate() {
    let src = "def rotate():\n    return 1\n\ndef rotate():\n    return 2\n";
    let bare = surf_core::resolve(src, Lang::Python, &parse_anchor("a.py > rotate").unwrap());
    assert!(matches!(bare, Err(surf_core::ResolveError::Ambiguous { count: 2, .. })));
    let first = surf_core::resolve(src, Lang::Python, &parse_anchor("a.py > rotate @1").unwrap()).unwrap();
    let second = surf_core::resolve(src, Lang::Python, &parse_anchor("a.py > rotate @2").unwrap()).unwrap();
    assert!(first.start_byte < second.start_byte);
    assert!(matches!(
        surf_core::resolve(src, Lang::Python, &parse_anchor("a.py > rotate @3").unwrap()),
        Err(surf_core::ResolveError::NotFound { .. })
    ));
}
