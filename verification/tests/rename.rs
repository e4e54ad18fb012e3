use surf_core::{find_renamed, hash_anchor, parse_anchor, HashOpts, Lang};

    #[test]
    fn detects_symbol_rename_by_stored_hash() {
        let old = "fn rotate(token: &str) -> String { token.to_string() }";
        let new = "fn rotate_token(token: &str) -> String { token.to_string() }";
        let stored = hash_anchor(old, Lang::Rust, &parse_anchor("f.rs > rotate").unwrap()).unwrap();

        assert_eq!(
            find_renamed(new, Lang::Rust, &stored, HashOpts::default()).unwrap(),
            Some("rotate_token".to_string())
        );
    }

    #[test]
    fn no_match_when_body_changed() {
        let old = "fn rotate(token: &str) -> String { token.to_string() }";
        let new = "fn rotate_token(token: &str) -> String { token.trim().to_string() }";
        let stored = hash_anchor(old, Lang::Rust, &parse_anchor("f.rs > rotate").unwrap()).unwrap();

        assert_eq!(
            find_renamed(new, Lang::Rust, &stored, HashOpts::default()).unwrap(),
            None
        );
    }
