use surf_core::suggest::{anchor_path, cover_claim, file_suggestions, sort_dedup_suggestions, suggest_fails, GlobReport, Suggestion};
use surf_core::{parse_anchor, At, Claim, Lang, Surface};

fn claim(at: &str) -> Claim {
    Claim { claim: "c".to_string(), at: At::One(at.to_string()), hash: None, ignore_literals: false }
}

fn covered_by(ats: &[&str]) -> Vec<String> {
    let mut covered = Vec::new();
    for at in ats {
        cover_claim(&claim(at), &mut covered);
    }
    covered
}

/// What a scan proposes for one file: its language from the path, then the unanchored symbols.
fn scan_file(rel: &str, source: &str, covered: &Vec<String>, surface: Surface) -> Vec<Suggestion> {
    let mut out = Vec::new();
    if let Some(lang) = Lang::from_path(rel) {
        file_suggestions(rel, source, lang, surface, covered, &mut out);
    }
    sort_dedup_suggestions(out)
}

fn ats(s: &[Suggestion]) -> Vec<&str> {
    s.iter().map(|x| x.at.as_str()).collect()
}

#[test]
fn suggests_only_unanchored_public_fns() {
    let covered = covered_by(&["src/m.rs > a"]);
    let s = scan_file("src/m.rs", "pub fn a() {}\npub fn b() {}\nfn c() {}\n", &covered, Surface::Callables);
    assert_eq!(s.len(), 1);
    assert_eq!(s[0].at, "src/m.rs > b");
    assert_eq!(s[0].symbol, "b");
}

#[test]
fn unsupported_files_are_skipped() {
    let s = scan_file("notes.txt", "pub fn a() {}\n", &Vec::new(), Surface::Callables);
    assert!(s.is_empty());
}

#[test]
fn suggestion_fields_are_file_symbol_and_at() {
    let s = scan_file("src/m.rs", "pub fn solo() {}\n", &Vec::new(), Surface::Callables);
    assert_eq!(s.len(), 1);
    assert_eq!(s[0].file, "src/m.rs");
    assert_eq!(s[0].symbol, "solo");
    assert_eq!(s[0].at, "src/m.rs > solo");
}

#[test]
fn proposes_python_methods_as_class_method_anchors() {
    let src = "class Client:\n    def fetch(self):\n        pass\n    def send(self):\n        pass\n";
    let s = scan_file("src/api.py", src, &Vec::new(), Surface::Callables);
    assert_eq!(ats(&s), vec!["src/api.py > Client > fetch", "src/api.py > Client > send"]);
}

#[test]
fn all_flag_proposes_classes_and_non_callables() {
    let src = "CONST = 1\n\nclass Client:\n    timeout: int = 30\n    def fetch(self):\n        pass\n";
    let default = scan_file("src/api.py", src, &Vec::new(), Surface::Callables);
    assert_eq!(ats(&default), vec!["src/api.py > Client > fetch"]);
    let all = scan_file("src/api.py", src, &Vec::new(), Surface::All);
    assert_eq!(
        ats(&all),
        vec!["src/api.py > CONST", "src/api.py > Client", "src/api.py > Client > fetch", "src/api.py > Client > timeout"]
    );
}

#[test]
fn anchoring_one_method_does_not_hide_siblings() {
    let covered = covered_by(&["src/api.py > Client > fetch"]);
    let src = "class Client:\n    def fetch(self):\n        pass\n    def send(self):\n        pass\n";
    let s = scan_file("src/api.py", src, &covered, Surface::Callables);
    assert_eq!(s.len(), 1);
    assert_eq!(s[0].at, "src/api.py > Client > send");
}

#[test]
fn positional_anchor_covers_its_path() {
    let a = parse_anchor("src/m.rs > A@2 > f").unwrap();
    assert_eq!(anchor_path(&a), "src/m.rs > A > f");
    let covered = covered_by(&["src/m.rs > b@1"]);
    assert_eq!(covered, vec!["src/m.rs > b".to_string()]);
    let s = scan_file("src/m.rs", "pub fn a() {}\npub fn b() {}\n", &covered, Surface::Callables);
    assert_eq!(ats(&s), vec!["src/m.rs > a"]);
}

#[test]
fn duplicates_collapse_to_one() {
    let mut out = Vec::new();
    for _ in 0..2 {
        file_suggestions("src/m.rs", "pub fn z() {}\npub fn a() {}\n", Lang::Rust, Surface::Callables, &Vec::new(), &mut out);
    }
    assert_eq!(out.len(), 4);
    let s = sort_dedup_suggestions(out);
    assert_eq!(ats(&s), vec!["src/m.rs > a", "src/m.rs > z"]);
}

fn glob(pattern: &str, files: usize, supported: usize) -> GlobReport {
    GlobReport { pattern: pattern.to_string(), files_matched: files, supported_matched: supported }
}

#[test]
fn zero_match_glob_is_reported_and_fails_alone() {
    assert!(suggest_fails(&vec![glob("zzz/nope/**/*.go", 0, 0)]));
}

#[test]
fn partial_match_still_succeeds() {
    assert!(!suggest_fails(&vec![glob("src/*.rs", 1, 1), glob("zzz/nope/*.go", 0, 0)]));
}

#[test]
fn no_globs_does_not_fail() {
    assert!(!suggest_fails(&vec![]));
}
