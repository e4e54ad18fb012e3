use surf_core::{set_anchor_at, set_anchor_hash, split_frontmatter, At, HubError};

const HUB: &str = "---\nsummary: s\nanchors:\n  - claim: first\n    at: a.rs > foo\n    hash: oldhash\n  - claim: second\n    at: a.rs > bar\n---\n# Body\n";

#[test]
fn set_hash_replaces_existing_in_place() {
    let out = set_anchor_hash(HUB, 0, "newhash").unwrap();
    assert!(out.contains("hash: newhash"));
    assert!(!out.contains("hash: oldhash"));
    // Only the one line changed.
    let before: Vec<_> = HUB.lines().collect();
    let after: Vec<_> = out.lines().collect();
    assert_eq!(before.len(), after.len());
    let diffs = before.iter().zip(&after).filter(|(a, b)| a != b).count();
    assert_eq!(diffs, 1);
}

#[test]
fn set_hash_inserts_when_absent() {
    let out = set_anchor_hash(HUB, 1, "h2").unwrap();
    assert_eq!(
        out,
        "---\nsummary: s\nanchors:\n  - claim: first\n    at: a.rs > foo\n    hash: oldhash\n  - claim: second\n    at: a.rs > bar\n    hash: h2\n---\n# Body\n"
    );
}

#[test]
fn set_hash_to_same_value_is_byte_identical() {
    assert_eq!(set_anchor_hash(HUB, 0, "oldhash").unwrap(), HUB);
}

#[test]
fn follow_rewrites_scalar_at() {
    let out = set_anchor_at(HUB, 0, "a.rs > foo_renamed").unwrap();
    assert_eq!(out, HUB.replace("at: a.rs > foo\n", "at: a.rs > foo_renamed\n"));
}

#[test]
fn follow_refuses_list_at() {
    let list_hub = "---\nsummary: s\nanchors:\n  - claim: c\n    at:\n      - a.rs > foo\n      - a.rs > bar\n---\n";
    assert_eq!(set_anchor_at(list_hub, 0, "x"), None);
}

#[test]
fn missing_frontmatter_is_typed_error() {
    let err = split_frontmatter("# Just markdown, no frontmatter\n").unwrap_err();
    assert!(matches!(err, HubError::MissingFrontmatter));
}

#[test]
fn unterminated_frontmatter_is_typed_error() {
    let err = split_frontmatter("---\nsummary: x\nstill inside\n").unwrap_err();
    assert!(matches!(err, HubError::UnterminatedFrontmatter));
}

#[test]
fn frontmatter_and_body_split_at_the_fences() {
    let (yaml, body) = split_frontmatter("---\r\nsummary: x\nrefs: []\n---  \n# Title\n\nProse.\n").unwrap();
    assert_eq!(yaml, "summary: x\nrefs: []\n");
    assert_eq!(body, "# Title\n\nProse.");
}

#[test]
fn set_hash_out_of_range_or_without_frontmatter_is_none() {
    assert_eq!(set_anchor_hash(HUB, 2, "h"), None);
    assert_eq!(set_anchor_hash("no frontmatter\n", 0, "h"), None);
    assert_eq!(set_anchor_hash("---\nsummary: s\n---\n", 0, "h"), None);
}

#[test]
fn set_hash_on_a_dash_only_item_inserts_under_it() {
    let hub = "---\nanchors:\n  -\n    claim: c\n    at: a.rs > f\n\n---\n";
    let out = set_anchor_hash(hub, 0, "abc").unwrap();
    assert_eq!(out, "---\nanchors:\n  -\n    claim: c\n    at: a.rs > f\n    hash: abc\n\n---\n");
}

#[test]
fn sites_lists_one_or_many() {
    let one = At::One("a.rs > f".to_string());
    assert_eq!(one.sites(), &["a.rs > f".to_string()]);
    let many = At::Many(vec!["a.rs > f".to_string(), "b.rs > g".to_string()]);
    assert_eq!(many.sites().len(), 2);
    assert_eq!(many.sites()[1], "b.rs > g");
}

#[test]
fn hub_error_messages() {
    assert_eq!(HubError::UnterminatedFrontmatter.message(), "frontmatter block is not closed with `---`");
    assert_eq!(HubError::Yaml("bad".to_string()).message(), "invalid frontmatter: bad");
}
