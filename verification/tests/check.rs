use surf_core::check::{check_claim, check_passes, enrich, malformed_hub_divergence, site_target, Scope};
use surf_core::{hash_anchor, parse_anchor, At, Claim, DivergenceKind, HubError, Lang};

fn stored_hash(src: &str, anchor: &str) -> String {
    hash_anchor(src, Lang::Rust, &parse_anchor(anchor).unwrap()).unwrap()
}

fn claim(text: &str, at: &str, hash: Option<String>) -> Claim {
    Claim { claim: text.to_string(), at: At::One(at.to_string()), hash, ignore_literals: false }
}

#[test]
fn clean_when_hash_matches() {
    let src = "pub fn add(a: i64, b: i64) -> i64 { a + b }\n";
    let h = stored_hash(src, "src/m.rs > add");
    let c = claim("add sums", "src/m.rs > add", Some(h));
    assert!(check_claim("hubs/a.md", &c, &vec![Some(src.to_string())]).is_none());
}

#[test]
fn per_symbol_not_per_file() {
    let original = "pub fn add(a: i64, b: i64) -> i64 { a + b }\npub fn other() -> i64 { 1 }\n";
    let h = stored_hash(original, "src/m.rs > add");
    let now = "pub fn add(a: i64, b: i64) -> i64 { a + b }\npub fn other() -> i64 { 999 }\n";
    let c = claim("add sums", "src/m.rs > add", Some(h));
    assert!(check_claim("hubs/a.md", &c, &vec![Some(now.to_string())]).is_none());
}

#[test]
fn unverified_when_no_stored_hash() {
    let c = claim("c", "src/m.rs > add", None);
    let d = check_claim("hubs/a.md", &c, &vec![Some("pub fn add() -> i64 { 1 }\n".to_string())]).unwrap();
    assert_eq!(d.kind, DivergenceKind::Unverified);
    assert_eq!(d.new_code.as_deref(), Some("pub fn add() -> i64 { 1 }"));
    assert!(d.old_hash.is_none());
}

#[test]
fn changed_span_diverges_with_old_code_and_magnitude_from_git() {
    let v1 = "pub fn add(a: i64, b: i64) -> i64 { a + b }\n";
    let v2 = "pub fn add(a: i64, b: i64) -> i64 { a - b }\n";
    let h = stored_hash(v1, "src/m.rs > add");
    let c = claim("add sums", "src/m.rs > add", Some(h.clone()));
    let mut d = check_claim("hubs/a.md", &c, &vec![Some(v2.to_string())]).unwrap();
    let (anchor, lang) = site_target("src/m.rs > add").unwrap();
    enrich(&mut d, v1, v2, lang, &anchor);
    assert_eq!(d.kind, DivergenceKind::Changed);
    assert_eq!(d.old_hash.as_deref(), Some(h.as_str()));
    assert!(d.new_hash.is_some() && d.new_hash != d.old_hash);
    assert!(d.old_code.as_deref().unwrap().contains("a + b"));
    assert!(d.new_code.as_deref().unwrap().contains("a - b"));
    assert!(d.magnitude.is_some());
}

#[test]
fn unsupported_file_type_is_unresolvable_with_detail() {
    let c = claim("c", "schema.sql > users", None);
    let d = check_claim("hubs/a.md", &c, &vec![Some("CREATE TABLE users (id int);\n".to_string())]).unwrap();
    assert_eq!(d.kind, DivergenceKind::Unresolvable);
    assert_eq!(d.detail.as_deref(), Some("unsupported file type: schema.sql"));
}

#[test]
fn unreadable_and_missing_symbol_are_unresolvable() {
    let c = claim("c", "src/m.rs > add", Some("abc".to_string()));
    let d = check_claim("hubs/a.md", &c, &vec![None]).unwrap();
    assert_eq!(d.kind, DivergenceKind::Unresolvable);
    assert_eq!(d.detail.as_deref(), Some("cannot read `src/m.rs`"));
    assert_eq!(d.old_hash.as_deref(), Some("abc"));
    let d = check_claim("hubs/a.md", &c, &vec![Some("fn other() {}\n".to_string())]).unwrap();
    assert_eq!(d.detail.as_deref(), Some("no symbol `add` found at this path"));
    let bad = claim("c", "src/m.rs", None);
    let d = check_claim("hubs/a.md", &bad, &vec![None]).unwrap();
    assert_eq!(
        d.detail.as_deref(),
        Some("invalid anchor: anchor names a file but no symbol (expected `path > symbol`)")
    );
}

#[test]
fn multi_site_claim_combines_and_has_no_code() {
    let a = "pub fn add(a: i64, b: i64) -> i64 { a + b }\n";
    let c = Claim {
        claim: "  both  ".to_string(),
        at: At::Many(vec!["src/a.rs > add".to_string(), "src/b.rs > add".to_string()]),
        hash: None,
        ignore_literals: false,
    };
    let d = check_claim("hubs/a.md", &c, &vec![Some(a.to_string()), Some(a.to_string())]).unwrap();
    assert_eq!(d.kind, DivergenceKind::Unverified);
    assert_eq!(d.at, "src/a.rs > add  +  src/b.rs > add");
    assert_eq!(d.prose, "both");
    assert!(d.new_code.is_none());
    let one = stored_hash(a, "src/a.rs > add");
    assert_eq!(d.new_hash.as_deref().map(|h| h.len()), Some(12));
    assert_ne!(d.new_hash.as_deref(), Some(one.as_str()));
}

#[test]
fn malformed_hub_blocks_check() {
    let d = malformed_hub_divergence("hubs/a.md", &HubError::Yaml("did not find expected node content".to_string()));
    assert_eq!(d.kind, DivergenceKind::Unresolvable);
    assert!(d.detail.as_deref().unwrap().starts_with("invalid hub"));
    assert_eq!(d.detail.as_deref(), Some("invalid hub: invalid frontmatter: did not find expected node content"));
    assert!(d.prose.is_empty() && d.claim.is_empty());
}

#[test]
fn invalid_files_glob_syntax_errors() {
    let err = match Scope::build(None, &vec!["src/[".to_string()]) {
        Err(e) => e,
        Ok(_) => panic!("expected an invalid glob"),
    };
    assert!(err.contains("src/["), "got: {err}");
}

fn two_claims() -> (Claim, Claim) {
    (claim("add", "src/a.rs > add", None), claim("sub", "src/b.rs > sub", None))
}

#[test]
fn files_scope_limits_claims() {
    let (a, b) = two_claims();
    let mut all = Scope::build(None, &vec![]).unwrap();
    assert!(all.includes(&a) && all.includes(&b));
    let mut scoped = Scope::build(None, &vec!["src/a.rs".to_string()]).unwrap();
    assert!(scoped.includes(&a));
    assert!(!scoped.includes(&b));
    let mut globbed = Scope::build(None, &vec!["src/b*.rs".to_string()]).unwrap();
    assert!(!globbed.includes(&a));
    assert!(globbed.includes(&b));
}

#[test]
fn base_scope_limits_to_changed() {
    let (a, b) = two_claims();
    let mut scope = Scope::build(Some(vec!["src/a.rs".to_string()]), &vec![]).unwrap();
    assert!(scope.includes(&a));
    assert!(!scope.includes(&b));
}

#[test]
fn zero_match_files_glob_is_reported_and_fails_alone() {
    let c = claim("add sums", "src/m.rs > add", None);
    let typo = "src/lables/*.rs".to_string();
    let mut scope = Scope::build(None, &vec![typo.clone()]).unwrap();
    assert!(!scope.includes(&c));
    let unmatched = scope.unmatched_globs();
    assert_eq!(unmatched, vec![typo]);
    assert!(!check_passes(0, 1, unmatched.len()));
}

#[test]
fn partially_matching_files_globs_still_succeed() {
    let c = claim("add sums", "src/m.rs > add", None);
    let globs = vec!["src/*.rs".to_string(), "zzz/nope/*.go".to_string()];
    let mut scope = Scope::build(None, &globs).unwrap();
    assert!(scope.includes(&c));
    let unmatched = scope.unmatched_globs();
    assert_eq!(unmatched, vec!["zzz/nope/*.go".to_string()]);
    assert!(check_passes(0, 2, unmatched.len()));
}

#[test]
fn files_glob_matching_unchanged_anchors_under_base_is_not_flagged() {
    let (a, b) = two_claims();
    let mut scope = Scope::build(Some(vec!["src/a.rs".to_string()]), &vec!["src/b*.rs".to_string()]).unwrap();
    assert!(!scope.includes(&a));
    assert!(!scope.includes(&b));
    assert!(scope.unmatched_globs().is_empty(), "glob matched an anchored file");
}

#[test]
fn no_flags_checks_everything() {
    let (a, b) = two_claims();
    let mut scope = Scope::build(None, &vec![]).unwrap();
    assert!(scope.includes(&a));
    assert!(scope.includes(&b));
    assert!(scope.unmatched_globs().is_empty());
    assert!(check_passes(0, 0, 0));
    assert!(!check_passes(2, 0, 0));
}
