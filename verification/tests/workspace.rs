use surf_core::workspace::{claim_for, hub_dir, normalize, sort_matches, template, ForMatch};
use surf_core::{default_hubs, split_frontmatter, At, Claim, Config};

fn claim(text: &str, at: &str) -> Claim {
    Claim { claim: text.to_string(), at: At::One(at.to_string()), hash: None, ignore_literals: false }
}

/// The claims of the hub used by the lookup tests.
fn hub_claims() -> Vec<Claim> {
    vec![
        claim("foo does a thing", "src/x.rs > foo"),
        claim("bar does another", "src/x.rs > bar"),
        claim("elsewhere", "src/y.rs > baz"),
    ]
}

fn find(query: &str, symbol: Option<&str>) -> Vec<ForMatch> {
    let mut out = Vec::new();
    for c in &hub_claims() {
        claim_for("hubs/a.md", c, query, symbol, &mut out);
    }
    sort_matches(out)
}

#[test]
fn derives_hub_dir_from_glob() {
    assert_eq!(hub_dir(&vec!["hubs/*.md".to_string()]), "hubs");
    assert_eq!(hub_dir(&vec!["docs/hubs/*.md".to_string()]), "docs/hubs");
    assert_eq!(hub_dir(&vec![]), "hubs");
}

#[test]
fn hub_dir_without_a_slash_falls_back_to_hubs() {
    assert_eq!(hub_dir(&vec!["*.md".to_string()]), "hubs");
    assert_eq!(hub_dir(&vec!["a/b/c?.md".to_string(), "x/*.md".to_string()]), "a/b");
    assert_eq!(hub_dir(&default_hubs()), "hubs");
}

#[test]
fn creates_a_lint_clean_hub() {
    let text = template("auth");
    let (front, body) = split_frontmatter(&text).unwrap();
    assert!(front.contains("anchors: []"));
    assert!(body.contains("# auth"));
}

#[test]
fn template_is_exact() {
    let text = template("x");
    assert!(text.starts_with("---\nsummary: TODO one-line summary of this domain.\nanchors: []\nrefs: []\n---\n\n# x\n\n"));
    assert!(text.ends_with("then run `surf verify` to stamp the hash.\n"));
}

#[test]
fn finds_all_claims_anchoring_a_file() {
    let m = find("src/x.rs", None);
    let ats: Vec<&str> = m.iter().map(|x| x.at.as_str()).collect();
    assert_eq!(ats, vec!["src/x.rs > bar", "src/x.rs > foo"]);
}

#[test]
fn symbol_narrows_to_one() {
    let m = find("src/x.rs", Some("foo"));
    assert_eq!(m.len(), 1);
    assert_eq!(m[0].at, "src/x.rs > foo");
    assert_eq!(m[0].claim, "foo does a thing");
}

#[test]
fn no_anchors_is_empty() {
    assert!(find("src/nope.rs", None).is_empty());
}

#[test]
fn matches_carry_hub_anchor_and_claim() {
    let m = find("src/x.rs", None);
    assert_eq!(m[0].hub, "hubs/a.md");
    assert_eq!(m[0].at, "src/x.rs > bar");
    assert_eq!(m[0].claim, "bar does another");
}

#[test]
fn claim_prose_is_trimmed_and_malformed_sites_are_skipped() {
    let c = Claim {
        claim: "  spaced  \n".to_string(),
        at: At::Many(vec!["src/x.rs >".to_string(), "src/x.rs > q".to_string()]),
        hash: None,
        ignore_literals: false,
    };
    let mut out = Vec::new();
    claim_for("hubs/b.md", &c, "src/x.rs", None, &mut out);
    assert_eq!(out.len(), 1);
    assert_eq!(out[0].at, "src/x.rs > q");
    assert_eq!(out[0].claim, "spaced");
}

#[test]
fn matches_sort_by_hub_then_anchor() {
    let mut out = Vec::new();
    claim_for("hubs/b.md", &claim("one", "src/x.rs > a"), "src/x.rs", None, &mut out);
    claim_for("hubs/a.md", &claim("two", "src/x.rs > z"), "src/x.rs", None, &mut out);
    claim_for("hubs/a.md", &claim("three", "src/x.rs > b"), "src/x.rs", None, &mut out);
    let sorted = sort_matches(out);
    let keys: Vec<(&str, &str)> = sorted.iter().map(|m| (m.hub.as_str(), m.at.as_str())).collect();
    assert_eq!(keys, vec![("hubs/a.md", "src/x.rs > b"), ("hubs/a.md", "src/x.rs > z"), ("hubs/b.md", "src/x.rs > a")]);
}

#[test]
fn normalize_strips_dot_slash_and_absolute_root() {
    let root = "/tmp/ws";
    assert_eq!(normalize(root, "./src/x.rs"), "src/x.rs");
    assert_eq!(normalize(root, "/tmp/ws/src/x.rs"), "src/x.rs");
}

#[test]
fn normalize_leaves_other_paths_alone() {
    assert_eq!(normalize("/tmp/ws/", "/tmp/ws/src/x.rs"), "src/x.rs");
    assert_eq!(normalize("/tmp/ws", "/tmp/wsx/a.rs"), "/tmp/wsx/a.rs");
    assert_eq!(normalize("/tmp/ws", "src/x.rs"), "src/x.rs");
    assert_eq!(normalize("/tmp/ws", "/tmp/ws"), "");
}

#[test]
fn default_config_has_one_hub_glob() {
    let c = Config::default();
    assert_eq!(c.hubs, vec!["hubs/*.md".to_string()]);
}
