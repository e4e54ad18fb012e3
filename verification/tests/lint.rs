use surf_core::lint::{
    agents_pointer, lint_passes, lint_site, too_many_anchors, truncate, under_coverage, Coverage, FileRead,
    Finding, Severity,
};
use surf_core::{hash_anchor, parse_anchor, HashOpts, Lang};

/// Lints hubs given as (hub path, [(claim, at, stored hash)]) against in-memory files.
fn lint(files: &[(&str, &str)], hubs: &[(&str, Vec<(&str, &str, Option<String>)>)]) -> Vec<Finding> {
    let read = |file: &str| -> FileRead {
        match files.iter().find(|(p, _)| *p == file) {
            Some((_, text)) => FileRead::Text(text.to_string()),
            None => FileRead::Missing,
        }
    };
    let mut findings = Vec::new();
    let mut coverage = Coverage::new();
    for (hub, claims) in hubs {
        for (text, at, hash) in claims {
            let file = parse_anchor(at).map(|a| a.file).unwrap_or_default();
            let r = read(&file);
            if let Some(info) = lint_site(hub, text, at, hash.as_deref(), HashOpts::default(), &r, &mut findings) {
                coverage.record(hub, &info);
            }
        }
        if let Some(f) = too_many_anchors(hub, claims.len()) {
            findings.push(f);
        }
    }
    for n in coverage.nudges() {
        if let (Some(lang), FileRead::Text(src)) = (Lang::from_path(&n.file), read(&n.file)) {
            findings.extend(under_coverage(&n.hub, &n.file, &n.covered, &src, lang));
        }
    }
    findings
}

fn rust_hash(src: &str, anchor: &str) -> String {
    hash_anchor(src, Lang::Rust, &parse_anchor(anchor).unwrap()).unwrap()
}

#[test]
fn clean_anchor_has_no_findings() {
    let f = lint(
        &[("src/auth.rs", "pub fn greet() -> &'static str { \"hi\" }\n")],
        &[("hubs/a.md", vec![("greeting exists", "src/auth.rs > greet", None)])],
    );
    assert!(f.is_empty());
    assert!(lint_passes(&f));
}

#[test]
fn ambiguous_anchor_blocks() {
    let f = lint(
        &[("src/dup.ts", "function dup(): void {}\nfunction dup(): void {}\n")],
        &[("hubs/a.md", vec![("dup", "src/dup.ts > dup", None)])],
    );
    assert_eq!(f.len(), 1);
    assert_eq!(f[0].severity, Severity::Block);
    assert!(f[0].message.contains("@N"), "message should suggest @N: {}", f[0].message);
    assert_eq!(f[0].message, "`dup` is ambiguous (2 matches); disambiguate with `@N`");
    assert!(!lint_passes(&f));
}

#[test]
fn vanished_symbol_blocks() {
    let f = lint(
        &[("src/auth.rs", "pub fn greet() {}\n")],
        &[("hubs/a.md", vec![("ghost", "src/auth.rs > ghost", None)])],
    );
    assert_eq!(f.len(), 1);
    assert_eq!(f[0].severity, Severity::Block);
    assert_eq!(f[0].message, "`ghost` not found (claim has no stored hash to match against)");
}

#[test]
fn renamed_symbol_warns_and_suggests_follow() {
    let new_src = "pub fn rotate_token(t: &str) -> String { t.to_string() }\n";
    let stored = rust_hash(new_src, "src/auth.rs > rotate_token");
    let f = lint(&[("src/auth.rs", new_src)], &[("hubs/a.md", vec![("rotation", "src/auth.rs > rotate", Some(stored))])]);
    assert_eq!(f.len(), 1);
    assert_eq!(f[0].severity, Severity::Warn);
    assert!(f[0].message.contains("rotate_token"));
    assert!(f[0].message.contains("--follow"));
}

#[test]
fn unmatched_stored_hash_blocks() {
    let f = lint(
        &[("src/auth.rs", "pub fn other() -> u8 { 1 }\n")],
        &[("hubs/a.md", vec![("rotation", "src/auth.rs > rotate", Some("000000000000".to_string()))])],
    );
    assert_eq!(f.len(), 1);
    assert_eq!(f[0].severity, Severity::Block);
    assert!(f[0].message.contains("the claim points at nothing"));
}

#[test]
fn moved_missing_and_unsupported_files() {
    let mut findings = Vec::new();
    let info = lint_site("h", "c", "src/x.rs > f", None, HashOpts::default(), &FileRead::Moved, &mut findings).unwrap();
    assert!(!info.resolved);
    assert_eq!(findings[0].severity, Severity::Warn);
    assert_eq!(findings[0].message, "`src/x.rs` appears to have moved \u{2014} run `surf verify --follow`");
    lint_site("h", "c", "src/x.rs > f", None, HashOpts::default(), &FileRead::Missing, &mut findings);
    assert_eq!(findings[1].message, "cannot read `src/x.rs` (file moved or removed?)");
    let info = lint_site("h", "c", "db.sql > t", None, HashOpts::default(), &FileRead::Missing, &mut findings).unwrap();
    assert_eq!(info.file, "db.sql");
    assert_eq!(findings[2].message, "unsupported file type: db.sql");
    assert!(lint_site("h", "c", " > t", None, HashOpts::default(), &FileRead::Missing, &mut findings).is_none());
    assert_eq!(findings[3].message, "invalid anchor: anchor has no file path");
    assert!(findings.iter().all(|f| f.hub == "h" && f.claim == "c"));
}

#[test]
fn under_coverage_warns_for_unanchored_export() {
    let f = lint(
        &[("src/m.rs", "pub fn a() {}\npub fn b() {}\nfn private() {}\n")],
        &[("hubs/a.md", vec![("a does", "src/m.rs > a", None)])],
    );
    assert_eq!(f.len(), 1);
    assert_eq!(f[0].severity, Severity::Warn);
    assert!(f[0].message.contains("`b`"), "{}", f[0].message);
    assert_eq!(f[0].at, "src/m.rs > b");
}

#[test]
fn coverage_is_workspace_wide_not_per_hub() {
    let f = lint(
        &[("src/m.rs", "pub fn a() {}\npub fn b() {}\n")],
        &[
            ("hubs/a.md", vec![("a does", "src/m.rs > a", None)]),
            ("hubs/b.md", vec![("b does", "src/m.rs > b", None)]),
        ],
    );
    assert!(f.is_empty(), "expected no findings, got {}", f.len());
}

#[test]
fn nudge_is_attributed_to_the_first_hub() {
    let f = lint(
        &[("src/m.rs", "pub fn a() {}\npub fn b() {}\npub fn c() {}\n")],
        &[
            ("hubs/z.md", vec![("a does", "src/m.rs > a", None)]),
            ("hubs/b.md", vec![("b does", "src/m.rs > b", None)]),
        ],
    );
    assert_eq!(f.len(), 1);
    assert_eq!(f[0].hub, "hubs/b.md");
}

#[test]
fn under_coverage_includes_methods() {
    let go = "package m\n\ntype Builder struct{}\n\nfunc NewBuilder() *Builder { return &Builder{} }\n\nfunc (b *Builder) Set() {}\n";
    let f = lint(&[("src/m.go", go)], &[("hubs/a.md", vec![("ctor", "src/m.go > NewBuilder", None)])]);
    assert_eq!(f.len(), 1, "expected one method nudge");
    assert_eq!(f[0].severity, Severity::Warn);
    assert!(f[0].message.contains("`Builder > Set`"), "{}", f[0].message);
}

#[test]
fn anchoring_a_method_silences_only_that_method() {
    let go = "package m\n\ntype Builder struct{}\n\nfunc (b *Builder) Set() {}\n\nfunc (b *Builder) Del() {}\n";
    let f = lint(&[("src/m.go", go)], &[("hubs/a.md", vec![("set", "src/m.go > Builder > Set", None)])]);
    assert_eq!(f.len(), 1, "only the unanchored sibling");
    assert!(f[0].message.contains("`Builder > Del`"), "{}", f[0].message);
}

#[test]
fn broken_anchor_suppresses_under_coverage() {
    let f = lint(
        &[("src/m.rs", "pub fn a() {}\npub fn b() {}\n")],
        &[("hubs/a.md", vec![("c", "src/m.rs > ghost", None)])],
    );
    assert_eq!(f.len(), 1);
    assert_eq!(f[0].severity, Severity::Block);
}

#[test]
fn coarse_span_warns_on_whole_file_anchor() {
    let body: String = (0..40).map(|i| format!("    let x{i} = {i};\n")).collect();
    let src = format!("pub fn big() {{\n{body}}}\n");
    let f = lint(&[("src/m.rs", src.as_str())], &[("hubs/a.md", vec![("big does", "src/m.rs > big", None)])]);
    assert_eq!(f.len(), 1);
    assert_eq!(f[0].severity, Severity::Warn);
    assert!(f[0].message.contains("whole-file"), "{}", f[0].message);
    assert!(f[0].message.starts_with("anchored span covers 100% of src/m.rs (42/42 lines)"), "{}", f[0].message);
}

#[test]
fn too_many_anchors_warns() {
    assert!(too_many_anchors("hubs/a.md", 12).is_none());
    let f = too_many_anchors("hubs/a.md", 13).unwrap();
    assert_eq!(f.severity, Severity::Warn);
    assert!(f.message.starts_with("13 anchors in one hub (> 12)"));
}

const AGENTS_OK: &str = "# Agents\n<!-- surf:hubs -->\nContext lives in [`hubs/`](./hubs/) \u{2014} search it.\n<!-- /surf:hubs -->\n";

#[test]
fn agents_pointer_valid_is_silent() {
    assert!(agents_pointer(AGENTS_OK, "hubs", true).is_none());
}

#[test]
fn agents_no_markers_is_silent() {
    assert!(agents_pointer("# Agents\nsee [hubs](./hubs/)\n", "hubs", true).is_none());
}

#[test]
fn agents_pointer_to_wrong_dir_blocks() {
    let text = "<!-- surf:hubs -->\nsee [docs](./docs/)\n<!-- /surf:hubs -->\n";
    let f = agents_pointer(text, "hubs", true).unwrap();
    assert_eq!(f.severity, Severity::Block);
    assert_eq!(f.hub, "AGENTS.md");
    assert!(f.message.contains("`hubs/`"));
}

#[test]
fn agents_pointer_needs_the_directory() {
    assert!(agents_pointer(AGENTS_OK, "hubs", false).is_some());
    assert!(agents_pointer(AGENTS_OK, "docs/hubs/", true).is_some());
    let nested = "<!-- surf:hubs -->[x](././docs/hubs//)<!-- /surf:hubs -->";
    assert!(agents_pointer(nested, "docs/hubs", true).is_none());
}

#[test]
fn truncate_collapses_whitespace_and_cuts() {
    assert_eq!(truncate("  a   b\n c ", 80), "a b c");
    assert_eq!(truncate("abcdef", 3), "abc\u{2026}");
    assert_eq!(truncate("", 3), "");
}
