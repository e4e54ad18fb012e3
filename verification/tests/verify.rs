use surf_core::verify::{plan_claim, verify_hub, Plan, VerifyOutcome, VerifyReport};
use surf_core::{hash_anchor, parse_anchor, At, Claim, Lang};

const SRC: &str = "pub fn add(a: i64, b: i64) -> i64 { a + b }\n";
const HUB: &str = "---\nsummary: s\nanchors:\n  - claim: add sums\n    at: src/m.rs > add\n---\n# Body\n";

fn claim(at: &str, hash: Option<String>) -> Claim {
    Claim { claim: "add sums".to_string(), at: At::One(at.to_string()), hash, ignore_literals: false }
}

fn empty_report() -> VerifyReport {
    VerifyReport { stamped: 0, unchanged: 0, errors: 0, anchors: Vec::new(), updated_files: Vec::new() }
}

#[test]
fn verify_stamps_then_is_idempotent() {
    let h = hash_anchor(SRC, Lang::Rust, &parse_anchor("src/m.rs > add").unwrap()).unwrap();
    let mut report = empty_report();
    let claims = vec![claim("src/m.rs > add", None)];
    let (text, matched) = verify_hub("hubs/a.md", HUB, &claims, None, false, &vec![vec![Some(SRC.to_string())]], &mut report);
    assert!(matched);
    assert_eq!(report.stamped, 1);
    assert_eq!(report.errors, 0);
    assert!(text.contains(&format!("    hash: {h}\n")));
    assert_eq!(report.updated_files, vec!["hubs/a.md".to_string()]);
    // Second pass, with the stamped hash as the hub now records it.
    let mut again = empty_report();
    let stamped = vec![claim("src/m.rs > add", Some(h))];
    let (text2, _) = verify_hub("hubs/a.md", &text, &stamped, None, false, &vec![vec![Some(SRC.to_string())]], &mut again);
    assert_eq!(text2, text);
    assert_eq!(again.unchanged, 1);
    assert_eq!(again.stamped, 0);
    assert_eq!(again.errors, 0);
    assert!(again.updated_files.is_empty());
    assert!(matches!(again.anchors[0].outcome, VerifyOutcome::Unchanged));
}

#[test]
fn unresolved_without_follow_is_skipped() {
    let mut report = empty_report();
    let claims = vec![claim("src/m.rs > gone", Some("abc".to_string()))];
    let (text, _) = verify_hub("hubs/a.md", HUB, &claims, None, false, &vec![vec![Some(SRC.to_string())]], &mut report);
    assert_eq!(text, HUB);
    assert_eq!(report.errors, 1);
    match &report.anchors[0].outcome {
        VerifyOutcome::Skipped { reason } => assert_eq!(reason, "no symbol `gone` found at this path"),
        _ => panic!("expected a skip"),
    }
}

#[test]
fn follow_repoints_renamed_anchor() {
    let old = "pub fn rotate(t: &str) -> String { t.to_string() }\n";
    let new = "pub fn rotate_token(t: &str) -> String { t.to_string() }\n";
    let h = hash_anchor(old, Lang::Rust, &parse_anchor("src/a.rs > rotate").unwrap()).unwrap();
    let hub = format!("---\nsummary: s\nanchors:\n  - claim: rotation\n    at: src/a.rs > rotate\n    hash: {h}\n---\n");
    let claims = vec![claim("src/a.rs > rotate", Some(h.clone()))];
    let reads = vec![vec![Some(new.to_string())]];
    match plan_claim(&claims[0], true, &reads[0]) {
        Plan::Follow { new_at, new_hash } => {
            assert_eq!(new_at, "src/a.rs > rotate_token");
            assert_eq!(new_hash, h);
        },
        _ => panic!("expected a follow plan"),
    }
    let mut report = empty_report();
    let (text, _) = verify_hub("hubs/a.md", &hub, &claims, None, true, &reads, &mut report);
    assert!(text.contains("    at: src/a.rs > rotate_token\n"));
    assert_eq!(report.stamped, 1);
    assert!(matches!(&report.anchors[0].outcome, VerifyOutcome::Followed { new_at } if new_at == "src/a.rs > rotate_token"));
}

#[test]
fn follow_needs_single_site_and_stored_hash() {
    let many = Claim {
        claim: "c".to_string(),
        at: At::Many(vec!["src/a.rs > f".to_string(), "src/a.rs > g".to_string()]),
        hash: Some("x".to_string()),
        ignore_literals: false,
    };
    match plan_claim(&many, true, &vec![None, None]) {
        Plan::Skip(r) => assert_eq!(r, "--follow supports single-site anchors only"),
        _ => panic!(),
    }
    match plan_claim(&claim("src/a.rs > f", None), true, &vec![None]) {
        Plan::Skip(r) => assert_eq!(r, "--follow needs a stored hash to match against"),
        _ => panic!(),
    }
}

#[test]
fn target_selects_anchors() {
    let mut report = empty_report();
    let claims = vec![claim("src/m.rs > add", None)];
    let (text, matched) = verify_hub("hubs/a.md", HUB, &claims, Some("src/m.rs > other"), false, &vec![vec![Some(SRC.to_string())]], &mut report);
    assert!(!matched);
    assert_eq!(text, HUB);
    assert!(report.anchors.is_empty());
}
